//! The model of one side of a book: a ladder of price levels, best price
//! first, and the edits that matching, resting, cancelling and amending
//! make to it.

use crate::level::{open_quantity, reopened, rests_at, LevelView};
use crate::sums::{
    lemma_sum_concat, lemma_sum_insert, lemma_sum_one, lemma_sum_push, lemma_sum_remove,
    lemma_sum_update, sum_of,
};
use crate::types::{DepthLevel, Fill, Order, OrderStatus, Side};
use vstd::prelude::*;

verus! {

/// On `side`, price `a` has priority over price `b`: higher for bids, lower
/// for asks.
pub open spec fn better(side: Side, a: u64, b: u64) -> bool {
    match side {
        Side::Buy => a > b,
        Side::Sell => a < b,
    }
}

/// An incoming order on side `taker`, bounded by `limit`, may trade at
/// `price`. Without a limit it may trade at any price.
pub open spec fn crosses(taker: Side, limit: Option<u64>, price: u64) -> bool {
    match limit {
        None => true,
        Some(bound) => match taker {
            Side::Buy => bound >= price,
            Side::Sell => bound <= price,
        },
    }
}

/// The measure summed to obtain a ladder's open quantity.
pub open spec fn level_quantity() -> spec_fn(LevelView) -> nat {
    |l: LevelView| l.quantity()
}

/// Total open quantity over all levels.
pub open spec fn ladder_quantity(levels: Seq<LevelView>) -> nat {
    sum_of(levels, level_quantity())
}

/// Position `p` of level `i` holds an order.
pub open spec fn occupied(levels: Seq<LevelView>, i: int, p: int) -> bool {
    0 <= i < levels.len() && 0 <= p < levels[i].orders.len()
}

/// The order at position `p` of level `i`.
pub open spec fn order_at(levels: Seq<LevelView>, i: int, p: int) -> Order {
    levels[i].orders[p]
}

/// Position `p` of level `i` holds the order with identifier `id`.
pub open spec fn holds_at(levels: Seq<LevelView>, i: int, p: int, id: u64) -> bool {
    occupied(levels, i, p) && levels[i].orders[p].id == id
}

/// Some order in the ladder has identifier `id`.
pub open spec fn ladder_holds(levels: Seq<LevelView>, id: u64) -> bool {
    exists|i: int, p: int| holds_at(levels, i, p, id)
}

/// No identifier occurs at two positions.
pub open spec fn ladder_distinct(levels: Seq<LevelView>) -> bool {
    forall|id: u64, i1: int, pa: int, i2: int, pb: int|
        #[trigger] holds_at(levels, i1, pa, id) && #[trigger] holds_at(levels, i2, pb, id) ==> i1
            == i2 && pa == pb
}

/// Every identifier and every sequence number in the ladder is below
/// `bound`.
pub open spec fn ladder_below(levels: Seq<LevelView>, bound: nat) -> bool {
    forall|i: int, p: int| #[trigger]
        occupied(levels, i, p) ==> levels[i].orders[p].id < bound && levels[i].orders[p].sequence
            < bound
}

/// A ladder is well formed for `side` when each level is, and prices run
/// strictly from best to worst.
pub open spec fn ladder_wf(levels: Seq<LevelView>, side: Side, security_id: u128) -> bool {
    &&& forall|i: int| 0 <= i < levels.len() ==> (#[trigger] levels[i]).wf(side, security_id)
    &&& forall|i: int, j: int|
        0 <= i < j < levels.len() ==> better(
            side,
            (#[trigger] levels[i]).price,
            (#[trigger] levels[j]).price,
        )
}

/// The aggregated depth of the best `count` levels of a ladder: for each,
/// its price and the total open quantity of its orders.
pub open spec fn ladder_depth(levels: Seq<LevelView>, count: nat) -> Seq<DepthLevel> {
    Seq::new(
        if count < levels.len() {
            count
        } else {
            levels.len()
        },
        |i: int| DepthLevel { price: levels[i].price, quantity: levels[i].quantity() as u128 },
    )
}

/// The position of the order with identifier `id`, if the ladder holds it.
pub open spec fn ladder_find(levels: Seq<LevelView>, id: u64) -> Option<(int, int)> {
    if ladder_holds(levels, id) {
        Some(choose|i: int, p: int| holds_at(levels, i, p, id))
    } else {
        None
    }
}

/// The number of levels whose price has priority over `price`; in a well
/// formed ladder, the index at which a level at `price` stands or belongs.
pub open spec fn rank(levels: Seq<LevelView>, side: Side, price: u64) -> int
    decreases levels.len(),
{
    if levels.len() == 0 || !better(side, levels[0].price, price) {
        0
    } else {
        1 + rank(levels.drop_first(), side, price)
    }
}

/// The ladder without the order at position `p` of level `i`. A level left
/// empty leaves the ladder.
pub open spec fn ladder_remove(levels: Seq<LevelView>, i: int, p: int) -> Seq<LevelView> {
    if levels[i].orders.len() <= 1 {
        levels.remove(i)
    } else {
        levels.update(i, levels[i].without(p))
    }
}

/// The ladder with the order at position `p` of level `i` left with
/// `quantity` open and given `status`.
pub open spec fn ladder_reopen(
    levels: Seq<LevelView>,
    i: int,
    p: int,
    quantity: u64,
    status: OrderStatus,
) -> Seq<LevelView> {
    levels.update(i, levels[i].with_open(p, quantity, status))
}

/// The ladder with `order` come to rest: at the back of the level at its
/// price, or in a new level where that price belongs.
pub open spec fn ladder_insert(levels: Seq<LevelView>, side: Side, order: Order) -> Seq<
    LevelView,
> {
    let price = order.price.unwrap();
    let k = rank(levels, side, price);
    if k < levels.len() && levels[k].price == price {
        levels.update(k, levels[k].with_back(order))
    } else {
        levels.insert(k, LevelView { price, orders: seq![order] })
    }
}

/// `rank` is the one index that splits the ladder into prices with
/// priority over `price` and prices without.
pub proof fn lemma_rank_unique(levels: Seq<LevelView>, side: Side, price: u64, k: int)
    requires
        0 <= k <= levels.len(),
        forall|i: int| 0 <= i < k ==> better(side, (#[trigger] levels[i]).price, price),
        k < levels.len() ==> !better(side, levels[k].price, price),
    ensures
        rank(levels, side, price) == k,
    decreases levels.len(),
{
    if k > 0 {
        let rest = levels.drop_first();
        assert forall|i: int| 0 <= i < k - 1 implies better(
            side,
            (#[trigger] rest[i]).price,
            price,
        ) by {
            assert(rest[i] == levels[i + 1]);
        }
        assert(k - 1 < rest.len() ==> rest[k - 1] == levels[k]);
        assert(better(side, levels[0].price, price));
        lemma_rank_unique(rest, side, price, k - 1);
    }
}

/// In a ladder sorted for `side`, `rank` splits the prices.
pub proof fn lemma_rank_splits(levels: Seq<LevelView>, side: Side, security_id: u128, price: u64)
    requires
        ladder_wf(levels, side, security_id),
    ensures
        0 <= rank(levels, side, price) <= levels.len(),
        forall|i: int|
            0 <= i < rank(levels, side, price) ==> better(
                side,
                (#[trigger] levels[i]).price,
                price,
            ),
        forall|i: int|
            rank(levels, side, price) <= i < levels.len() ==> !better(
                side,
                (#[trigger] levels[i]).price,
                price,
            ),
    decreases levels.len(),
{
    if levels.len() == 0 || !better(side, levels[0].price, price) {
        assert forall|i: int| 0 <= i < levels.len() implies !better(
            side,
            (#[trigger] levels[i]).price,
            price,
        ) by {
            if i > 0 {
                assert(better(side, levels[0].price, levels[i].price));
            }
        }
    } else {
        let rest = levels.drop_first();
        assert forall|i: int| 0 <= i < rest.len() implies (#[trigger] rest[i]).wf(
            side,
            security_id,
        ) by {
            assert(rest[i] == levels[i + 1]);
        }
        assert forall|i: int, j: int| 0 <= i < j < rest.len() implies better(
            side,
            (#[trigger] rest[i]).price,
            (#[trigger] rest[j]).price,
        ) by {
            assert(rest[i] == levels[i + 1]);
            assert(rest[j] == levels[j + 1]);
        }
        lemma_rank_splits(rest, side, security_id, price);
        let k = rank(levels, side, price);
        assert forall|i: int| 0 <= i < k implies better(
            side,
            (#[trigger] levels[i]).price,
            price,
        ) by {
            if i > 0 {
                assert(rest[i - 1] == levels[i]);
            }
        }
        assert forall|i: int| k <= i < levels.len() implies !better(
            side,
            (#[trigger] levels[i]).price,
            price,
        ) by {
            assert(rest[i - 1] == levels[i]);
        }
    }
}


/// Removing an order keeps the ladder well formed, takes exactly that
/// order's open quantity with it, and never improves the best price.
pub proof fn lemma_remove_wf(levels: Seq<LevelView>, side: Side, security_id: u128, i: int, p: int)
    requires
        ladder_wf(levels, side, security_id),
        occupied(levels, i, p),
    ensures
        ladder_wf(ladder_remove(levels, i, p), side, security_id),
        ladder_quantity(ladder_remove(levels, i, p)) + levels[i].orders[p].current_quantity
            == ladder_quantity(levels),
        ladder_remove(levels, i, p).len() > 0 ==> !better(
            side,
            ladder_remove(levels, i, p)[0].price,
            levels[0].price,
        ),
{
    let new = ladder_remove(levels, i, p);
    let level = levels[i];
    assert(level.wf(side, security_id));
    lemma_sum_remove(level.orders, p, open_quantity());
    if level.orders.len() <= 1 {
        assert(level.orders.remove(p) =~= Seq::<Order>::empty());
        lemma_sum_remove(levels, i, level_quantity());
        assert forall|a: int| 0 <= a < new.len() implies (#[trigger] new[a]).wf(
            side,
            security_id,
        ) by {
            if a < i {
                assert(new[a] == levels[a]);
            } else {
                assert(new[a] == levels[a + 1]);
            }
        }
        assert forall|a: int, b: int| 0 <= a < b < new.len() implies better(
            side,
            (#[trigger] new[a]).price,
            (#[trigger] new[b]).price,
        ) by {
            let a0 = if a < i { a } else { a + 1 };
            let b0 = if b < i { b } else { b + 1 };
            assert(new[a] == levels[a0]);
            assert(new[b] == levels[b0]);
        }
        if new.len() > 0 {
            if i == 0 {
                assert(new[0] == levels[1]);
                assert(better(side, levels[0].price, levels[1].price));
            } else {
                assert(new[0] == levels[0]);
            }
        }
    } else {
        let shorter = level.without(p);
        lemma_sum_update(levels, i, shorter, level_quantity());
        assert forall|q: int| 0 <= q < shorter.orders.len() implies rests_at(
            #[trigger] shorter.orders[q],
            side,
            shorter.price,
            security_id,
        ) by {
            let q0 = if q < p { q } else { q + 1 };
            assert(shorter.orders[q] == level.orders[q0]);
        }
        assert forall|q: int, r: int| 0 <= q < r < shorter.orders.len() implies (
        #[trigger] shorter.orders[q]).sequence < (#[trigger] shorter.orders[r]).sequence by {
            let q0 = if q < p { q } else { q + 1 };
            let r0 = if r < p { r } else { r + 1 };
            assert(shorter.orders[q] == level.orders[q0]);
            assert(shorter.orders[r] == level.orders[r0]);
        }
        assert(shorter.wf(side, security_id));
        assert forall|a: int| 0 <= a < new.len() implies (#[trigger] new[a]).wf(
            side,
            security_id,
        ) by {
            if a != i {
                assert(new[a] == levels[a]);
            }
        }
        assert forall|a: int, b: int| 0 <= a < b < new.len() implies better(
            side,
            (#[trigger] new[a]).price,
            (#[trigger] new[b]).price,
        ) by {
            assert(new[a].price == levels[a].price);
            assert(new[b].price == levels[b].price);
        }
        assert(new[0].price == levels[0].price);
    }
}

/// Where the order at position `q` of level `j`, after a removal at
/// (`i`, `p`), stood before it.
pub open spec fn origin_of_removed(levels: Seq<LevelView>, i: int, p: int, j: int, q: int) -> (
    int,
    int,
) {
    if levels[i].orders.len() <= 1 {
        (if j < i { j } else { j + 1 }, q)
    } else if j == i && q >= p {
        (j, q + 1)
    } else {
        (j, q)
    }
}

/// Where the order at (`a`, `b`) stands after a removal at (`i`, `p`).
pub open spec fn image_of_removed(levels: Seq<LevelView>, i: int, p: int, a: int, b: int) -> (
    int,
    int,
) {
    if levels[i].orders.len() <= 1 {
        (if a < i { a } else { a - 1 }, b)
    } else if a == i && b > p {
        (a, b - 1)
    } else {
        (a, b)
    }
}

/// A removal leaves every other order in the ladder, each exactly once,
/// and nothing else.
pub proof fn lemma_remove_positions(levels: Seq<LevelView>, i: int, p: int)
    requires
        occupied(levels, i, p),
    ensures
        forall|j: int, q: int| #[trigger]
            occupied(ladder_remove(levels, i, p), j, q) ==> {
                let (a, b) = origin_of_removed(levels, i, p, j, q);
                &&& occupied(levels, a, b)
                &&& !(a == i && b == p)
                &&& order_at(ladder_remove(levels, i, p), j, q) == order_at(levels, a, b)
                &&& ladder_remove(levels, i, p)[j].price == levels[a].price
                &&& image_of_removed(levels, i, p, a, b) == (j, q)
            },
        forall|a: int, b: int| #[trigger]
            occupied(levels, a, b) && !(a == i && b == p) ==> {
                let (j, q) = image_of_removed(levels, i, p, a, b);
                &&& occupied(ladder_remove(levels, i, p), j, q)
                &&& order_at(ladder_remove(levels, i, p), j, q) == order_at(levels, a, b)
                &&& origin_of_removed(levels, i, p, j, q) == (a, b)
            },
{
}

/// A removal takes one identifier out of the ladder and leaves the rest.
pub proof fn lemma_remove_ids(levels: Seq<LevelView>, i: int, p: int)
    requires
        occupied(levels, i, p),
    ensures
        forall|x: u64| #[trigger]
            ladder_holds(ladder_remove(levels, i, p), x) ==> ladder_holds(levels, x),
        forall|x: u64|
            x != levels[i].orders[p].id && #[trigger] ladder_holds(levels, x) ==> ladder_holds(
                ladder_remove(levels, i, p),
                x,
            ),
        ladder_distinct(levels) ==> ladder_distinct(ladder_remove(levels, i, p)) && !ladder_holds(
            ladder_remove(levels, i, p),
            levels[i].orders[p].id,
        ),
        forall|bound: nat| #[trigger]
            ladder_below(levels, bound) ==> ladder_below(ladder_remove(levels, i, p), bound),
{
    let new = ladder_remove(levels, i, p);
    let gone = levels[i].orders[p].id;
    lemma_remove_positions(levels, i, p);
    assert forall|x: u64| #[trigger] ladder_holds(new, x) implies ladder_holds(levels, x) by {
        let (j, q) = choose|j: int, q: int| holds_at(new, j, q, x);
        assert(occupied(new, j, q));
        let (a, b) = origin_of_removed(levels, i, p, j, q);
        assert(holds_at(levels, a, b, x));
    }
    assert forall|x: u64| x != gone && #[trigger] ladder_holds(levels, x) implies ladder_holds(
        new,
        x,
    ) by {
        let (a, b) = choose|a: int, b: int| holds_at(levels, a, b, x);
        assert(occupied(levels, a, b));
        let (j, q) = image_of_removed(levels, i, p, a, b);
        assert(holds_at(new, j, q, x));
    }
    if ladder_distinct(levels) {
        assert forall|x: u64, j1: int, q1: int, j2: int, q2: int| #[trigger]
            holds_at(new, j1, q1, x) && #[trigger] holds_at(new, j2, q2, x) implies j1 == j2 && q1
            == q2 by {
            assert(occupied(new, j1, q1));
            assert(occupied(new, j2, q2));
            let (a1, b1) = origin_of_removed(levels, i, p, j1, q1);
            let (a2, b2) = origin_of_removed(levels, i, p, j2, q2);
            assert(holds_at(levels, a1, b1, x));
            assert(holds_at(levels, a2, b2, x));
        }
        if ladder_holds(new, gone) {
            let (j, q) = choose|j: int, q: int| holds_at(new, j, q, gone);
            assert(occupied(new, j, q));
            let (a, b) = origin_of_removed(levels, i, p, j, q);
            assert(holds_at(levels, a, b, gone));
            assert(holds_at(levels, i, p, gone));
        }
    }
    assert forall|bound: nat| #[trigger] ladder_below(levels, bound) implies ladder_below(
        new,
        bound,
    ) by {
        assert forall|j: int, q: int| #[trigger] occupied(new, j, q) implies new[j].orders[q].id
            < bound && new[j].orders[q].sequence < bound by {
            let (a, b) = origin_of_removed(levels, i, p, j, q);
            assert(occupied(levels, a, b));
        }
    }
}


/// Changing the open quantity of one order keeps the ladder well formed,
/// moves its total by the difference, and leaves every price where it was.
pub proof fn lemma_reopen_wf(
    levels: Seq<LevelView>,
    side: Side,
    security_id: u128,
    i: int,
    p: int,
    quantity: u64,
    status: OrderStatus,
)
    requires
        ladder_wf(levels, side, security_id),
        occupied(levels, i, p),
        0 < quantity <= levels[i].orders[p].current_quantity,
        status.is_open(),
    ensures
        ladder_wf(ladder_reopen(levels, i, p, quantity, status), side, security_id),
        ladder_quantity(ladder_reopen(levels, i, p, quantity, status))
            + levels[i].orders[p].current_quantity == ladder_quantity(levels) + quantity,
        ladder_reopen(levels, i, p, quantity, status).len() == levels.len(),
        forall|j: int|
            0 <= j < levels.len() ==> (#[trigger] ladder_reopen(
                levels,
                i,
                p,
                quantity,
                status,
            )[j]).price == levels[j].price,
{
    let new = ladder_reopen(levels, i, p, quantity, status);
    let level = levels[i];
    let changed = level.with_open(p, quantity, status);
    assert(level.wf(side, security_id));
    lemma_sum_update(level.orders, p, reopened(level.orders[p], quantity, status), open_quantity());
    lemma_sum_update(levels, i, changed, level_quantity());
    assert forall|q: int| 0 <= q < changed.orders.len() implies rests_at(
        #[trigger] changed.orders[q],
        side,
        changed.price,
        security_id,
    ) by {
        assert(rests_at(level.orders[q], side, level.price, security_id));
    }
    assert forall|q: int, r: int| 0 <= q < r < changed.orders.len() implies (
    #[trigger] changed.orders[q]).sequence < (#[trigger] changed.orders[r]).sequence by {
        assert(changed.orders[q].sequence == level.orders[q].sequence);
        assert(changed.orders[r].sequence == level.orders[r].sequence);
    }
    assert(changed.wf(side, security_id));
    assert forall|a: int| 0 <= a < new.len() implies (#[trigger] new[a]).wf(side, security_id) by {
        if a != i {
            assert(new[a] == levels[a]);
        }
    }
    assert forall|a: int, b: int| 0 <= a < b < new.len() implies better(
        side,
        (#[trigger] new[a]).price,
        (#[trigger] new[b]).price,
    ) by {
        assert(new[a].price == levels[a].price);
        assert(new[b].price == levels[b].price);
    }
}

/// Changing the open quantity of one order moves no order and changes no
/// identifier or sequence number.
pub proof fn lemma_reopen_ids(
    levels: Seq<LevelView>,
    i: int,
    p: int,
    quantity: u64,
    status: OrderStatus,
)
    requires
        occupied(levels, i, p),
    ensures
        forall|j: int, q: int, x: u64| #[trigger]
            holds_at(ladder_reopen(levels, i, p, quantity, status), j, q, x) <==> holds_at(
                levels,
                j,
                q,
                x,
            ),
        forall|x: u64| #[trigger]
            ladder_holds(ladder_reopen(levels, i, p, quantity, status), x) <==> ladder_holds(
                levels,
                x,
            ),
        ladder_distinct(levels) ==> ladder_distinct(ladder_reopen(levels, i, p, quantity, status)),
        forall|bound: nat| #[trigger]
            ladder_below(levels, bound) ==> ladder_below(
                ladder_reopen(levels, i, p, quantity, status),
                bound,
            ),
{
    let new = ladder_reopen(levels, i, p, quantity, status);
    assert forall|j: int, q: int, x: u64| #[trigger] holds_at(new, j, q, x) <==> holds_at(
        levels,
        j,
        q,
        x,
    ) by {
        if 0 <= j < levels.len() && j != i {
            assert(new[j] == levels[j]);
        }
    }
    assert forall|x: u64| #[trigger] ladder_holds(new, x) <==> ladder_holds(levels, x) by {
        if ladder_holds(new, x) {
            let (j, q) = choose|j: int, q: int| holds_at(new, j, q, x);
            assert(holds_at(levels, j, q, x));
        }
        if ladder_holds(levels, x) {
            let (j, q) = choose|j: int, q: int| holds_at(levels, j, q, x);
            assert(holds_at(new, j, q, x));
        }
    }
    if ladder_distinct(levels) {
        assert forall|x: u64, j1: int, q1: int, j2: int, q2: int| #[trigger]
            holds_at(new, j1, q1, x) && #[trigger] holds_at(new, j2, q2, x) implies j1 == j2 && q1
            == q2 by {
            assert(holds_at(levels, j1, q1, x));
            assert(holds_at(levels, j2, q2, x));
        }
    }
    assert forall|bound: nat| #[trigger] ladder_below(levels, bound) implies ladder_below(
        new,
        bound,
    ) by {
        assert forall|j: int, q: int| #[trigger] occupied(new, j, q) implies new[j].orders[q].id
            < bound && new[j].orders[q].sequence < bound by {
            assert(occupied(levels, j, q));
            if j != i {
                assert(new[j] == levels[j]);
            }
        }
    }
}

/// Where `order` comes to stand when it rests in the ladder.
pub open spec fn slot_of_inserted(levels: Seq<LevelView>, side: Side, order: Order) -> (int, int) {
    let price = order.price.unwrap();
    let k = rank(levels, side, price);
    if k < levels.len() && levels[k].price == price {
        (k, levels[k].orders.len() as int)
    } else {
        (k, 0)
    }
}

/// Where the order at (`a`, `b`) stands once `order` has come to rest.
pub open spec fn image_of_inserted(
    levels: Seq<LevelView>,
    side: Side,
    order: Order,
    a: int,
    b: int,
) -> (int, int) {
    let price = order.price.unwrap();
    let k = rank(levels, side, price);
    if k < levels.len() && levels[k].price == price {
        (a, b)
    } else {
        (if a < k { a } else { a + 1 }, b)
    }
}

/// Where the order at (`j`, `q`), other than the one just come to rest,
/// stood before.
pub open spec fn origin_of_inserted(
    levels: Seq<LevelView>,
    side: Side,
    order: Order,
    j: int,
    q: int,
) -> (int, int) {
    let price = order.price.unwrap();
    let k = rank(levels, side, price);
    if k < levels.len() && levels[k].price == price {
        (j, q)
    } else {
        (if j < k { j } else { j - 1 }, q)
    }
}

/// Resting an order adds it at its slot and moves no other order out of
/// the ladder.
pub proof fn lemma_insert_positions(
    levels: Seq<LevelView>,
    side: Side,
    security_id: u128,
    order: Order,
)
    requires
        ladder_wf(levels, side, security_id),
        order.price.is_some(),
    ensures
        ({
            let (k, n) = slot_of_inserted(levels, side, order);
            &&& occupied(ladder_insert(levels, side, order), k, n)
            &&& order_at(ladder_insert(levels, side, order), k, n) == order
            &&& n + 1 == ladder_insert(levels, side, order)[k].orders.len()
            &&& ladder_insert(levels, side, order)[k].price == order.price.unwrap()
        }),
        forall|j: int, q: int| #[trigger]
            occupied(ladder_insert(levels, side, order), j, q) && (j, q) != slot_of_inserted(
                levels,
                side,
                order,
            ) ==> {
                let (a, b) = origin_of_inserted(levels, side, order, j, q);
                &&& occupied(levels, a, b)
                &&& order_at(ladder_insert(levels, side, order), j, q) == order_at(levels, a, b)
                &&& ladder_insert(levels, side, order)[j].price == levels[a].price
                &&& image_of_inserted(levels, side, order, a, b) == (j, q)
            },
        forall|a: int, b: int| #[trigger]
            occupied(levels, a, b) ==> {
                let (j, q) = image_of_inserted(levels, side, order, a, b);
                &&& occupied(ladder_insert(levels, side, order), j, q)
                &&& (j, q) != slot_of_inserted(levels, side, order)
                &&& order_at(ladder_insert(levels, side, order), j, q) == order_at(levels, a, b)
                &&& origin_of_inserted(levels, side, order, j, q) == (a, b)
            },
{
    lemma_rank_splits(levels, side, security_id, order.price.unwrap());
}

/// Resting an order keeps the ladder well formed and adds exactly its open
/// quantity; the best price becomes the better of the old best and the
/// order's price.
pub proof fn lemma_insert_wf(levels: Seq<LevelView>, side: Side, security_id: u128, order: Order)
    requires
        ladder_wf(levels, side, security_id),
        order.price.is_some(),
        rests_at(order, side, order.price.unwrap(), security_id),
        ladder_below(levels, order.sequence as nat),
    ensures
        ladder_wf(ladder_insert(levels, side, order), side, security_id),
        ladder_quantity(ladder_insert(levels, side, order)) == ladder_quantity(levels)
            + order.current_quantity,
        ladder_insert(levels, side, order).len() > 0,
        ladder_insert(levels, side, order)[0].price == (if levels.len() > 0 && !better(
            side,
            order.price.unwrap(),
            levels[0].price,
        ) {
            levels[0].price
        } else {
            order.price.unwrap()
        }),
{
    let price = order.price.unwrap();
    let k = rank(levels, side, price);
    let new = ladder_insert(levels, side, order);
    lemma_rank_splits(levels, side, security_id, price);
    if k < levels.len() && levels[k].price == price {
        let level = levels[k];
        let longer = level.with_back(order);
        assert(level.wf(side, security_id));
        lemma_sum_push(level.orders, order, open_quantity());
        lemma_sum_update(levels, k, longer, level_quantity());
        assert forall|q: int| 0 <= q < longer.orders.len() implies rests_at(
            #[trigger] longer.orders[q],
            side,
            longer.price,
            security_id,
        ) by {
            if q < level.orders.len() {
                assert(longer.orders[q] == level.orders[q]);
            }
        }
        assert forall|q: int, r: int| 0 <= q < r < longer.orders.len() implies (
        #[trigger] longer.orders[q]).sequence < (#[trigger] longer.orders[r]).sequence by {
            assert(longer.orders[q] == level.orders[q]);
            if r < level.orders.len() {
                assert(longer.orders[r] == level.orders[r]);
            } else {
                assert(occupied(levels, k, q));
            }
        }
        assert(longer.wf(side, security_id));
        assert forall|a: int| 0 <= a < new.len() implies (#[trigger] new[a]).wf(
            side,
            security_id,
        ) by {
            if a != k {
                assert(new[a] == levels[a]);
            }
        }
        assert forall|a: int, b: int| 0 <= a < b < new.len() implies better(
            side,
            (#[trigger] new[a]).price,
            (#[trigger] new[b]).price,
        ) by {
            assert(new[a].price == levels[a].price);
            assert(new[b].price == levels[b].price);
        }
        assert(new[0].price == levels[0].price);
        if k > 0 {
            assert(better(side, levels[0].price, price));
        }
    } else {
        let single = LevelView { price, orders: seq![order] };
        lemma_sum_one(order, open_quantity());
        lemma_sum_insert(levels, k, single, level_quantity());
        assert(single.wf(side, security_id));
        assert forall|a: int| 0 <= a < new.len() implies (#[trigger] new[a]).wf(
            side,
            security_id,
        ) by {
            if a < k {
                assert(new[a] == levels[a]);
            } else if a > k {
                assert(new[a] == levels[a - 1]);
            }
        }
        assert forall|b: int| k <= b < levels.len() implies better(
            side,
            price,
            (#[trigger] levels[b]).price,
        ) by {
            assert(!better(side, levels[b].price, price));
            if b > k {
                assert(better(side, levels[k].price, levels[b].price));
                assert(!better(side, levels[k].price, price));
            }
        }
        assert forall|a: int, b: int| 0 <= a < b < new.len() implies better(
            side,
            (#[trigger] new[a]).price,
            (#[trigger] new[b]).price,
        ) by {
            if a < k {
                assert(new[a] == levels[a]);
            } else if a > k {
                assert(new[a] == levels[a - 1]);
            }
            if b < k {
                assert(new[b] == levels[b]);
            } else if b > k {
                assert(new[b] == levels[b - 1]);
            }
        }
        if k == 0 {
            assert(new[0] == single);
            if levels.len() > 0 {
                assert(better(side, price, levels[0].price));
            }
        } else {
            assert(new[0] == levels[0]);
            assert(better(side, levels[0].price, price));
        }
    }
}

/// Resting an order adds its identifier to the ladder and leaves the rest.
pub proof fn lemma_insert_ids(levels: Seq<LevelView>, side: Side, security_id: u128, order: Order)
    requires
        ladder_wf(levels, side, security_id),
        order.price.is_some(),
    ensures
        forall|x: u64| #[trigger]
            ladder_holds(ladder_insert(levels, side, order), x) <==> ladder_holds(levels, x) || x
                == order.id,
        ladder_distinct(levels) && !ladder_holds(levels, order.id) ==> ladder_distinct(
            ladder_insert(levels, side, order),
        ),
        forall|bound: nat|
            order.id < bound && order.sequence < bound && #[trigger] ladder_below(levels, bound)
                ==> ladder_below(ladder_insert(levels, side, order), bound),
{
    let new = ladder_insert(levels, side, order);
    let (k, n) = slot_of_inserted(levels, side, order);
    lemma_insert_positions(levels, side, security_id, order);
    assert(holds_at(new, k, n, order.id));
    assert forall|x: u64| #[trigger] ladder_holds(new, x) <==> ladder_holds(levels, x) || x
        == order.id by {
        if ladder_holds(new, x) && x != order.id {
            let (j, q) = choose|j: int, q: int| holds_at(new, j, q, x);
            assert(occupied(new, j, q));
            let (a, b) = origin_of_inserted(levels, side, order, j, q);
            assert(holds_at(levels, a, b, x));
        }
        if ladder_holds(levels, x) {
            let (a, b) = choose|a: int, b: int| holds_at(levels, a, b, x);
            assert(occupied(levels, a, b));
            let (j, q) = image_of_inserted(levels, side, order, a, b);
            assert(holds_at(new, j, q, x));
        }
    }
    if ladder_distinct(levels) && !ladder_holds(levels, order.id) {
        assert forall|x: u64, j1: int, q1: int, j2: int, q2: int| #[trigger]
            holds_at(new, j1, q1, x) && #[trigger] holds_at(new, j2, q2, x) implies j1 == j2 && q1
            == q2 by {
            assert(occupied(new, j1, q1));
            assert(occupied(new, j2, q2));
            if (j1, q1) != (k, n) {
                let (a1, b1) = origin_of_inserted(levels, side, order, j1, q1);
                assert(holds_at(levels, a1, b1, x));
            }
            if (j2, q2) != (k, n) {
                let (a2, b2) = origin_of_inserted(levels, side, order, j2, q2);
                assert(holds_at(levels, a2, b2, x));
            }
        }
    }
    assert forall|bound: nat|
        order.id < bound && order.sequence < bound && #[trigger] ladder_below(
            levels,
            bound,
        ) implies ladder_below(new, bound) by {
        assert forall|j: int, q: int| #[trigger] occupied(new, j, q) implies new[j].orders[q].id
            < bound && new[j].orders[q].sequence < bound by {
            if (j, q) != (k, n) {
                let (a, b) = origin_of_inserted(levels, side, order, j, q);
                assert(occupied(levels, a, b));
            }
        }
    }
}


/// What matching leaves behind: the ladder it traded against, the trades in
/// the order they were made, and the quantity the incoming order has left.
pub struct MatchOutcome {
    pub levels: Seq<LevelView>,
    pub fills: Seq<Fill>,
    pub remaining: u64,
}

/// The measure summed to obtain traded quantity.
pub open spec fn fill_quantity() -> spec_fn(Fill) -> nat {
    |f: Fill| f.quantity as nat
}

/// Total quantity traded by a sequence of fills.
pub open spec fn fills_quantity(fills: Seq<Fill>) -> nat {
    sum_of(fills, fill_quantity())
}

/// Length of the queue at the best level, or zero for an empty ladder.
pub open spec fn front_queue_len(levels: Seq<LevelView>) -> nat {
    if levels.len() > 0 {
        levels[0].orders.len()
    } else {
        0
    }
}

/// Matching may take another step: the incoming order has quantity left
/// and the best level of the ladder is at a price it accepts.
pub open spec fn can_trade(
    levels: Seq<LevelView>,
    taker: Side,
    limit: Option<u64>,
    quantity: u64,
) -> bool {
    &&& quantity > 0
    &&& levels.len() > 0
    &&& levels[0].orders.len() > 0
    &&& crosses(taker, limit, levels[0].price)
}

/// Matches an incoming order of `quantity` on side `taker`, bounded by
/// `limit`, against `levels`, the opposite side's ladder.
///
/// While the incoming order has quantity left and the best level is at a
/// price it accepts, it trades with the order at the front of that level,
/// at that level's price, for the smaller of the two open quantities. An
/// order traded out leaves the ladder, and its level with it if it was the
/// last one there; an order traded in part stays at the front.
pub open spec fn match_ladder(
    levels: Seq<LevelView>,
    taker: Side,
    limit: Option<u64>,
    taker_id: u64,
    quantity: u64,
) -> MatchOutcome
    decreases levels.len(), front_queue_len(levels),
{
    if !can_trade(levels, taker, limit, quantity) {
        MatchOutcome { levels, fills: Seq::empty(), remaining: quantity }
    } else {
        let maker = levels[0].orders[0];
        if quantity < maker.current_quantity {
            let left = (maker.current_quantity - quantity) as u64;
            MatchOutcome {
                levels: ladder_reopen(levels, 0, 0, left, OrderStatus::PartiallyFilled),
                fills: seq![fill_between(maker, levels[0].price, taker_id, quantity)],
                remaining: 0,
            }
        } else {
            let rest = match_ladder(
                ladder_remove(levels, 0, 0),
                taker,
                limit,
                taker_id,
                (quantity - maker.current_quantity) as u64,
            );
            MatchOutcome {
                levels: rest.levels,
                fills: seq![
                    fill_between(maker, levels[0].price, taker_id, maker.current_quantity),
                ] + rest.fills,
                remaining: rest.remaining,
            }
        }
    }
}

/// The record of `quantity` trading between the resting order `maker` and
/// the incoming order `taker_id`, at the resting order's `price`.
pub open spec fn fill_between(maker: Order, price: u64, taker_id: u64, quantity: u64) -> Fill {
    Fill { resting_order_id: maker.id, incoming_order_id: taker_id, price, quantity }
}

/// What holds of every fill that matching against `levels` can produce.
pub open spec fn fill_ok(
    fill: Fill,
    levels: Seq<LevelView>,
    taker: Side,
    limit: Option<u64>,
    taker_id: u64,
) -> bool {
    &&& fill.incoming_order_id == taker_id
    &&& fill.quantity > 0
    &&& crosses(taker, limit, fill.price)
    &&& ladder_holds(levels, fill.resting_order_id)
}

/// Matching keeps the ladder well formed and conserves quantity: what the
/// ladder loses and what the incoming order loses are both exactly what
/// the fills record. It stops only when the incoming order is exhausted or
/// nothing acceptable is left, never improves the best price, and brings no
/// order into the ladder.
pub proof fn lemma_match(
    levels: Seq<LevelView>,
    side: Side,
    security_id: u128,
    taker: Side,
    limit: Option<u64>,
    taker_id: u64,
    quantity: u64,
)
    requires
        ladder_wf(levels, side, security_id),
    ensures
        ({
            let out = match_ladder(levels, taker, limit, taker_id, quantity);
            &&& ladder_wf(out.levels, side, security_id)
            &&& ladder_quantity(out.levels) + fills_quantity(out.fills) == ladder_quantity(levels)
            &&& out.remaining + fills_quantity(out.fills) == quantity
            &&& !can_trade(out.levels, taker, limit, out.remaining)
            &&& out.levels.len() > 0 ==> levels.len() > 0 && !better(
                side,
                out.levels[0].price,
                levels[0].price,
            )
            &&& out.fills.len() == 0 ==> out.levels == levels
            &&& forall|x: u64| #[trigger]
                ladder_holds(out.levels, x) ==> ladder_holds(levels, x)
            &&& ladder_distinct(levels) ==> ladder_distinct(out.levels)
            &&& forall|bound: nat| #[trigger]
                ladder_below(levels, bound) ==> ladder_below(out.levels, bound)
            &&& forall|k: int|
                0 <= k < out.fills.len() ==> fill_ok(
                    #[trigger] out.fills[k],
                    levels,
                    taker,
                    limit,
                    taker_id,
                )
        }),
    decreases levels.len(), front_queue_len(levels),
{
    let out = match_ladder(levels, taker, limit, taker_id, quantity);
    if !can_trade(levels, taker, limit, quantity) {
        assert(fills_quantity(out.fills) == 0);
    } else {
        let maker = levels[0].orders[0];
        let price = levels[0].price;
        assert(levels[0].wf(side, security_id));
        assert(rests_at(maker, side, price, security_id));
        assert(holds_at(levels, 0, 0, maker.id));
        if quantity < maker.current_quantity {
            let left = (maker.current_quantity - quantity) as u64;
            lemma_reopen_wf(levels, side, security_id, 0, 0, left, OrderStatus::PartiallyFilled);
            lemma_reopen_ids(levels, 0, 0, left, OrderStatus::PartiallyFilled);
            lemma_sum_one(fill_between(maker, price, taker_id, quantity), fill_quantity());
            assert(out.levels[0].price == levels[0].price);
        } else {
            let next = ladder_remove(levels, 0, 0);
            let left = (quantity - maker.current_quantity) as u64;
            let fill = fill_between(maker, price, taker_id, maker.current_quantity);
            lemma_remove_wf(levels, side, security_id, 0, 0);
            lemma_remove_ids(levels, 0, 0);
            lemma_match(next, side, security_id, taker, limit, taker_id, left);
            let rest = match_ladder(next, taker, limit, taker_id, left);
            lemma_sum_one(fill, fill_quantity());
            lemma_sum_concat(seq![fill], rest.fills, fill_quantity());
            assert forall|x: u64| #[trigger] ladder_holds(out.levels, x) implies ladder_holds(
                levels,
                x,
            ) by {
                assert(ladder_holds(next, x));
            }
            assert forall|bound: nat| #[trigger] ladder_below(levels, bound) implies ladder_below(
                out.levels,
                bound,
            ) by {
                assert(ladder_below(next, bound));
            }
            assert forall|k: int| 0 <= k < out.fills.len() implies fill_ok(
                #[trigger] out.fills[k],
                levels,
                taker,
                limit,
                taker_id,
            ) by {
                if k > 0 {
                    assert(out.fills[k] == rest.fills[k - 1]);
                    assert(fill_ok(rest.fills[k - 1], next, taker, limit, taker_id));
                    assert(ladder_holds(next, rest.fills[k - 1].resting_order_id));
                }
            }
        }
    }
}


/// `index` files every order of the ladder, and nothing else, under its
/// identifier, with the price of the level it stands in.
pub open spec fn indexes(index: Map<u64, u64>, levels: Seq<LevelView>) -> bool {
    &&& forall|id: u64|
        #![trigger index.contains_key(id)]
        #![trigger ladder_holds(levels, id)]
        index.contains_key(id) <==> ladder_holds(levels, id)
    &&& forall|i: int, p: int| #[trigger]
        occupied(levels, i, p) ==> index[levels[i].orders[p].id] == levels[i].price
}

/// Dropping a removed order's entry keeps the index in step.
pub proof fn lemma_index_remove(index: Map<u64, u64>, levels: Seq<LevelView>, i: int, p: int)
    requires
        indexes(index, levels),
        ladder_distinct(levels),
        occupied(levels, i, p),
    ensures
        indexes(index.remove(levels[i].orders[p].id), ladder_remove(levels, i, p)),
{
    let gone = levels[i].orders[p].id;
    let new = ladder_remove(levels, i, p);
    lemma_remove_ids(levels, i, p);
    lemma_remove_positions(levels, i, p);
    assert(holds_at(levels, i, p, gone));
    assert forall|j: int, q: int| #[trigger] occupied(new, j, q) implies index.remove(
        gone,
    )[new[j].orders[q].id] == new[j].price by {
        let (a, b) = origin_of_removed(levels, i, p, j, q);
        assert(occupied(levels, a, b));
        assert(holds_at(levels, a, b, new[j].orders[q].id));
    }
}

/// Filing a newly rested order under its price keeps the index in step.
pub proof fn lemma_index_insert(
    index: Map<u64, u64>,
    levels: Seq<LevelView>,
    side: Side,
    security_id: u128,
    order: Order,
)
    requires
        indexes(index, levels),
        ladder_wf(levels, side, security_id),
        order.price.is_some(),
        !ladder_holds(levels, order.id),
    ensures
        indexes(index.insert(order.id, order.price.unwrap()), ladder_insert(levels, side, order)),
{
    let new = ladder_insert(levels, side, order);
    let (k, n) = slot_of_inserted(levels, side, order);
    lemma_insert_ids(levels, side, security_id, order);
    lemma_insert_positions(levels, side, security_id, order);
    assert forall|j: int, q: int| #[trigger] occupied(new, j, q) implies index.insert(
        order.id,
        order.price.unwrap(),
    )[new[j].orders[q].id] == new[j].price by {
        if (j, q) != (k, n) {
            let (a, b) = origin_of_inserted(levels, side, order, j, q);
            assert(occupied(levels, a, b));
            assert(holds_at(levels, a, b, new[j].orders[q].id));
        }
    }
}

/// Changing an order's open quantity leaves the index in step.
pub proof fn lemma_index_reopen(
    index: Map<u64, u64>,
    levels: Seq<LevelView>,
    i: int,
    p: int,
    quantity: u64,
    status: OrderStatus,
)
    requires
        indexes(index, levels),
        occupied(levels, i, p),
    ensures
        indexes(index, ladder_reopen(levels, i, p, quantity, status)),
{
    let new = ladder_reopen(levels, i, p, quantity, status);
    lemma_reopen_ids(levels, i, p, quantity, status);
    assert forall|j: int, q: int| #[trigger] occupied(new, j, q) implies index[new[j].orders[q].id]
        == new[j].price by {
        assert(occupied(levels, j, q));
        if j != i {
            assert(new[j] == levels[j]);
        }
    }
}

/// An indexed order stands in the level that `rank` points at for the
/// price it is filed under.
pub proof fn lemma_index_locate(
    index: Map<u64, u64>,
    levels: Seq<LevelView>,
    side: Side,
    security_id: u128,
    id: u64,
)
    requires
        indexes(index, levels),
        ladder_wf(levels, side, security_id),
        index.contains_key(id),
    ensures
        ({
            let k = rank(levels, side, index[id]);
            &&& 0 <= k < levels.len()
            &&& levels[k].price == index[id]
            &&& exists|p: int| holds_at(levels, k, p, id)
        }),
{
    let price = index[id];
    let k = rank(levels, side, price);
    lemma_rank_splits(levels, side, security_id, price);
    assert(ladder_holds(levels, id));
    let (i, p) = choose|i: int, p: int| holds_at(levels, i, p, id);
    assert(occupied(levels, i, p));
    assert(levels[i].price == price);
    if i < k {
        assert(better(side, levels[i].price, price));
    }
    if i > k {
        assert(better(side, levels[k].price, levels[i].price));
        assert(!better(side, levels[k].price, price));
    }
    assert(holds_at(levels, k, p, id));
}

} // verus!
