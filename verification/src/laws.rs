//! Laws of the order book, proved of the model that every operation of the
//! engine refines.

use crate::book::{
    lemma_cancel, lemma_execute, lemma_find, lemma_find_unique, lemma_reduce, BookView, Place,
};
use crate::engine::{
    lemma_cancel_wf, lemma_empty_book, lemma_modify_wf, lemma_resting, lemma_submit_wf, EngineView,
};
use crate::ladder::{
    better, can_trade, fill_between, fill_ok, fills_quantity, holds_at, image_of_inserted,
    image_of_removed, ladder_depth, ladder_distinct, ladder_holds, ladder_insert, ladder_remove,
    ladder_reopen, ladder_wf, lemma_insert_ids, lemma_insert_positions, lemma_match,
    lemma_remove_ids, lemma_remove_positions, lemma_remove_wf, lemma_reopen_ids, level_quantity,
    match_ladder, occupied, order_at, slot_of_inserted,
};
use crate::level::{open_quantity, rests_at, LevelView};
use crate::sums::{
    lemma_sum_bound, lemma_sum_concat, lemma_sum_empty, lemma_sum_one, lemma_sum_remove, sum_of,
};
use crate::types::{
    CancelResult, DepthLevel, EngineError, Fill, MatchResultView, ModifyResultView, NewOrder, Order,
    OrderStatus, OrderType, Side,
};
use vstd::prelude::*;

verus! {

/// Position `p` of level `i` holds exactly the order `o`.
pub open spec fn stands_at(levels: Seq<LevelView>, i: int, p: int, o: Order) -> bool {
    occupied(levels, i, p) && levels[i].orders[p] == o
}

/// The order `o` rests in the ladder exactly as given: same open quantity,
/// same status, same sequence number.
pub open spec fn ladder_has(levels: Seq<LevelView>, o: Order) -> bool {
    exists|i: int, p: int| stands_at(levels, i, p, o)
}

/// In level `i`, position `p` is ahead of the occupied position `q`.
pub open spec fn ahead(levels: Seq<LevelView>, i: int, p: int, q: int) -> bool {
    0 <= p < q && occupied(levels, i, q)
}

/// Matching serves a level's queue from the front: an order is left exactly
/// as it was unless every order ahead of it at its price has been traded
/// out of the ladder.
pub proof fn lemma_match_in_order(
    levels: Seq<LevelView>,
    side: Side,
    security_id: u128,
    taker: Side,
    limit: Option<u64>,
    taker_id: u64,
    quantity: u64,
)
    requires
        ladder_wf(levels, side, security_id),
        ladder_distinct(levels),
    ensures
        forall|i: int, p: int, q: int| #[trigger]
            ahead(levels, i, p, q) ==> {
                let out = match_ladder(levels, taker, limit, taker_id, quantity);
                ladder_has(out.levels, levels[i].orders[q]) || !ladder_holds(
                    out.levels,
                    levels[i].orders[p].id,
                )
            },
    decreases levels.len(), crate::ladder::front_queue_len(levels),
{
    let out = match_ladder(levels, taker, limit, taker_id, quantity);
    if !can_trade(levels, taker, limit, quantity) {
        assert forall|i: int, p: int, q: int| #[trigger] ahead(levels, i, p, q) implies ladder_has(
            out.levels,
            levels[i].orders[q],
        ) by {
            assert(stands_at(out.levels, i, q, levels[i].orders[q]));
        }
    } else {
        let maker = levels[0].orders[0];
        if quantity < maker.current_quantity {
            assert forall|i: int, p: int, q: int| #[trigger]
                ahead(levels, i, p, q) implies ladder_has(out.levels, levels[i].orders[q]) by {
                assert(stands_at(out.levels, i, q, levels[i].orders[q]));
            }
        } else {
            let next = ladder_remove(levels, 0, 0);
            let left = (quantity - maker.current_quantity) as u64;
            let rest = match_ladder(next, taker, limit, taker_id, left);
            lemma_remove_wf(levels, side, security_id, 0, 0);
            lemma_remove_ids(levels, 0, 0);
            lemma_remove_positions(levels, 0, 0);
            lemma_match(next, side, security_id, taker, limit, taker_id, left);
            lemma_match_in_order(next, side, security_id, taker, limit, taker_id, left);
            assert forall|i: int, p: int, q: int| #[trigger] ahead(levels, i, p, q) implies (
            ladder_has(out.levels, levels[i].orders[q]) || !ladder_holds(
                out.levels,
                levels[i].orders[p].id,
            )) by {
                if i == 0 && p == 0 {
                    assert(!ladder_holds(next, maker.id));
                } else {
                    assert(occupied(levels, i, p));
                    assert(occupied(levels, i, q));
                    let (j, pa) = image_of_removed(levels, 0, 0, i, p);
                    let (j2, q1) = image_of_removed(levels, 0, 0, i, q);
                    assert(occupied(next, j, pa));
                    assert(occupied(next, j2, q1));
                    assert(ahead(next, j, pa, q1));
                    assert(order_at(next, j, q1) == order_at(levels, i, q));
                    assert(order_at(next, j, pa) == order_at(levels, i, p));
                }
            }
        }
    }
}


/// In a book without duplicates, an order found at a place of one ladder
/// is the order that rests under its identifier.
pub proof fn lemma_resting_at(book: BookView, id: u64, side: Side, i: int, p: int)
    requires
        book.distinct(),
        holds_at(book.ladder(side), i, p, id),
    ensures
        book.find(id) == Some(Place { side, level: i, position: p }),
        book.resting(id) == Some(book.ladder(side)[i].orders[p]),
{
    lemma_find_unique(book.ladder(side), id, i, p);
    assert(ladder_holds(book.ladder(side), id));
    assert(!ladder_holds(book.ladder(side.opposite()), id));
}

/// Two orders at the same price on the same side stand in the same level,
/// the one with the lower sequence number ahead of the other.
pub proof fn lemma_same_level(book: BookView, first: u64, second: u64)
    requires
        book.wf(),
        book.holds(first),
        book.holds(second),
        book.resting(first).unwrap().side == book.resting(second).unwrap().side,
        book.resting(first).unwrap().price == book.resting(second).unwrap().price,
        book.resting(first).unwrap().sequence < book.resting(second).unwrap().sequence,
    ensures
        ({
            let a = book.find(first).unwrap();
            let b = book.find(second).unwrap();
            &&& a.side == b.side
            &&& a.level == b.level
            &&& ahead(book.ladder(a.side), a.level, a.position, b.position)
            &&& holds_at(book.ladder(a.side), a.level, a.position, first)
            &&& holds_at(book.ladder(a.side), b.level, b.position, second)
        }),
{
    lemma_find(book, first);
    lemma_find(book, second);
    let a = book.find(first).unwrap();
    let b = book.find(second).unwrap();
    let la = book.ladder(a.side);
    let lb = book.ladder(b.side);
    assert(la[a.level].wf(a.side, book.security_id));
    assert(lb[b.level].wf(b.side, book.security_id));
    assert(rests_at(la[a.level].orders[a.position], a.side, la[a.level].price, book.security_id));
    assert(rests_at(lb[b.level].orders[b.position], b.side, lb[b.level].price, book.security_id));
    assert(a.side == b.side);
    assert(la[a.level].price == la[b.level].price);
    if a.level < b.level {
        assert(better(a.side, la[a.level].price, la[b.level].price));
    }
    if b.level < a.level {
        assert(better(a.side, la[b.level].price, la[a.level].price));
    }
    if b.position < a.position {
        assert(la[a.level].orders[b.position].sequence < la[a.level].orders[a.position].sequence);
    }
}

/// Executing an order leaves every order on its own side exactly as it
/// was.
pub proof fn lemma_execute_own_side(book: BookView, order: Order, id: u64)
    requires
        book.wf(),
        book.admits(order),
        ladder_holds(book.ladder(order.side), id),
    ensures
        book.execute(order).book.resting(id) == book.resting(id),
{
    let side = order.side;
    let own = book.ladder(side);
    let after = book.execute(order).book;
    lemma_execute(book, order);
    let (i, p) = choose|i: int, p: int| holds_at(own, i, p, id);
    assert(holds_at(own, i, p, id));
    lemma_resting_at(book, id, side, i, p);
    let out = match_ladder(
        book.ladder(side.opposite()),
        side,
        order.limit(),
        order.id,
        order.current_quantity,
    );
    if out.remaining > 0 && order.order_type == OrderType::Limit {
        let status = if out.fills.len() > 0 {
            OrderStatus::PartiallyFilled
        } else {
            order.status
        };
        let rested = Order { current_quantity: out.remaining, status, ..order };
        lemma_insert_positions(own, side, book.security_id, rested);
        assert(occupied(own, i, p));
        let (j, q) = image_of_inserted(own, side, rested, i, p);
        assert(after.ladder(side) == ladder_insert(own, side, rested));
        assert(order_at(after.ladder(side), j, q) == order_at(own, i, p));
        assert(holds_at(after.ladder(side), j, q, id));
        lemma_resting_at(after, id, side, j, q);
    } else {
        assert(after.ladder(side) == own);
        lemma_resting_at(after, id, side, i, p);
    }
}

/// Priority. Of two orders resting at the same price on the same side, the
/// one that arrived first is served first: whatever order is executed
/// against the book, the later one is left exactly as it was unless the
/// earlier one has been traded out of the book.
pub proof fn lemma_priority(book: BookView, first: u64, second: u64, order: Order)
    requires
        book.wf(),
        book.admits(order),
        book.holds(first),
        book.holds(second),
        book.resting(first).unwrap().side == book.resting(second).unwrap().side,
        book.resting(first).unwrap().price == book.resting(second).unwrap().price,
        book.resting(first).unwrap().sequence < book.resting(second).unwrap().sequence,
    ensures
        book.execute(order).book.resting(second) == book.resting(second) || !book.execute(
            order,
        ).book.holds(first),
{
    lemma_same_level(book, first, second);
    lemma_execute(book, order);
    let a = book.find(first).unwrap();
    let b = book.find(second).unwrap();
    let levels = book.ladder(a.side);
    let after = book.execute(order).book;
    if order.side == a.side {
        assert(ladder_holds(levels, second));
        lemma_execute_own_side(book, order, second);
    } else {
        let out = match_ladder(levels, order.side, order.limit(), order.id, order.current_quantity);
        lemma_match_in_order(
            levels,
            a.side,
            book.security_id,
            order.side,
            order.limit(),
            order.id,
            order.current_quantity,
        );
        assert(after.ladder(a.side) == out.levels);
        let kept = levels[a.level].orders[b.position];
        assert(book.resting(second) == Some(kept));
        if ladder_has(out.levels, kept) {
            let (j, q) = choose|j: int, q: int| stands_at(out.levels, j, q, kept);
            assert(holds_at(after.ladder(a.side), j, q, second));
            lemma_resting_at(after, second, a.side, j, q);
        } else {
            assert(!ladder_holds(out.levels, first));
            assert(ladder_holds(levels, first));
            assert(!ladder_holds(book.ladder(order.side), first));
            assert(first != order.id);
            if out.remaining > 0 && order.order_type == OrderType::Limit {
                let status = if out.fills.len() > 0 {
                    OrderStatus::PartiallyFilled
                } else {
                    order.status
                };
                let rested = Order { current_quantity: out.remaining, status, ..order };
                lemma_insert_ids(book.ladder(order.side), order.side, book.security_id, rested);
                assert(after.ladder(order.side) == ladder_insert(
                    book.ladder(order.side),
                    order.side,
                    rested,
                ));
                assert(!ladder_holds(after.ladder(order.side), first));
            } else {
                assert(after.ladder(order.side) == book.ladder(order.side));
            }
        }
    }
}


/// The measure summed to obtain what the fills took from the resting order
/// `id`.
pub open spec fn taken_from(id: u64) -> spec_fn(Fill) -> nat {
    |f: Fill|
        if f.resting_order_id == id {
            f.quantity as nat
        } else {
            0
        }
}

/// The quantity that `fills` took from the resting order `id`.
pub open spec fn filled_for(fills: Seq<Fill>, id: u64) -> nat {
    sum_of(fills, taken_from(id))
}

/// `o` as it stands after fills have taken `taken` from it: that much less
/// open, and partially filled if anything was taken.
pub open spec fn after_fills(o: Order, taken: nat) -> Order {
    Order {
        current_quantity: (o.current_quantity - taken) as u64,
        status: if taken > 0 {
            OrderStatus::PartiallyFilled
        } else {
            o.status
        },
        ..o
    }
}

/// The fills account for what became of the resting order `o`: if it still
/// rests in `after`, it is `o` less what the fills took from it, and they
/// took less than it had open; if it does not, they took all it had open.
pub open spec fn accounted(after: Seq<LevelView>, fills: Seq<Fill>, o: Order) -> bool {
    if ladder_holds(after, o.id) {
        filled_for(fills, o.id) < o.current_quantity && ladder_has(
            after,
            after_fills(o, filled_for(fills, o.id)),
        )
    } else {
        filled_for(fills, o.id) == o.current_quantity
    }
}

/// Fills that name only orders other than `id` take nothing from it.
pub proof fn lemma_filled_for_others(fills: Seq<Fill>, id: u64)
    requires
        forall|k: int| 0 <= k < fills.len() ==> (#[trigger] fills[k]).resting_order_id != id,
    ensures
        filled_for(fills, id) == 0,
{
    lemma_sum_bound(fills, taken_from(id), 0);
}

/// Every fill is accounted for. Matching changes a resting order only by
/// what the fills that name it took from it, and an order leaves the
/// ladder exactly when the fills have taken all it had open.
pub proof fn lemma_fills_account(
    levels: Seq<LevelView>,
    side: Side,
    security_id: u128,
    taker: Side,
    limit: Option<u64>,
    taker_id: u64,
    quantity: u64,
)
    requires
        ladder_wf(levels, side, security_id),
        ladder_distinct(levels),
    ensures
        forall|i: int, p: int| #[trigger]
            occupied(levels, i, p) ==> {
                let out = match_ladder(levels, taker, limit, taker_id, quantity);
                accounted(out.levels, out.fills, levels[i].orders[p])
            },
    decreases levels.len(), crate::ladder::front_queue_len(levels),
{
    let out = match_ladder(levels, taker, limit, taker_id, quantity);
    if !can_trade(levels, taker, limit, quantity) {
        assert forall|i: int, p: int| #[trigger] occupied(levels, i, p) implies accounted(
            out.levels,
            out.fills,
            levels[i].orders[p],
        ) by {
            let o = levels[i].orders[p];
            assert(filled_for(out.fills, o.id) == 0);
            assert(levels[i].wf(side, security_id));
            assert(rests_at(o, side, levels[i].price, security_id));
            assert(holds_at(levels, i, p, o.id));
            assert(stands_at(out.levels, i, p, after_fills(o, 0)));
        }
    } else {
        let maker = levels[0].orders[0];
        let price = levels[0].price;
        assert(levels[0].wf(side, security_id));
        assert(rests_at(maker, side, price, security_id));
        assert(holds_at(levels, 0, 0, maker.id));
        if quantity < maker.current_quantity {
            let left = (maker.current_quantity - quantity) as u64;
            let fill = fill_between(maker, price, taker_id, quantity);
            assert(out.fills == seq![fill]);
            assert forall|i: int, p: int| #[trigger] occupied(levels, i, p) implies accounted(
                out.levels,
                out.fills,
                levels[i].orders[p],
            ) by {
                let o = levels[i].orders[p];
                assert(holds_at(levels, i, p, o.id));
                lemma_sum_one(fill, taken_from(o.id));
                assert(holds_at(out.levels, i, p, o.id));
                if i == 0 && p == 0 {
                    assert(stands_at(out.levels, 0, 0, after_fills(o, quantity as nat)));
                } else {
                    assert(o.id != maker.id);
                    assert(levels[i].wf(side, security_id));
                    assert(rests_at(o, side, levels[i].price, security_id));
                    assert(out.levels[i].orders[p] == o);
                    assert(stands_at(out.levels, i, p, after_fills(o, 0)));
                }
            }
        } else {
            let next = ladder_remove(levels, 0, 0);
            let left = (quantity - maker.current_quantity) as u64;
            let rest = match_ladder(next, taker, limit, taker_id, left);
            let fill = fill_between(maker, price, taker_id, maker.current_quantity);
            lemma_remove_wf(levels, side, security_id, 0, 0);
            lemma_remove_ids(levels, 0, 0);
            lemma_remove_positions(levels, 0, 0);
            lemma_match(next, side, security_id, taker, limit, taker_id, left);
            lemma_fills_account(next, side, security_id, taker, limit, taker_id, left);
            assert(out.fills == seq![fill] + rest.fills);
            assert forall|i: int, p: int| #[trigger] occupied(levels, i, p) implies accounted(
                out.levels,
                out.fills,
                levels[i].orders[p],
            ) by {
                let o = levels[i].orders[p];
                assert(holds_at(levels, i, p, o.id));
                lemma_sum_concat(seq![fill], rest.fills, taken_from(o.id));
                lemma_sum_one(fill, taken_from(o.id));
                if i == 0 && p == 0 {
                    assert(!ladder_holds(next, maker.id));
                    assert forall|k: int| 0 <= k < rest.fills.len() implies (
                    #[trigger] rest.fills[k]).resting_order_id != maker.id by {
                        assert(fill_ok(rest.fills[k], next, taker, limit, taker_id));
                    }
                    lemma_filled_for_others(rest.fills, maker.id);
                } else {
                    assert(o.id != maker.id);
                    let (j, q) = image_of_removed(levels, 0, 0, i, p);
                    assert(occupied(next, j, q));
                    assert(order_at(next, j, q) == order_at(levels, i, p));
                    assert(accounted(rest.levels, rest.fills, next[j].orders[q]));
                }
            }
        }
    }
}

/// Cancelling one order leaves every other order exactly as it was.
pub proof fn lemma_cancel_others(book: BookView, id: u64, other: u64)
    requires
        book.wf(),
        book.holds(id),
        other != id,
    ensures
        book.cancel(id).resting(other) == book.resting(other),
{
    lemma_find(book, id);
    lemma_find(book, other);
    lemma_cancel(book, id);
    let after = book.cancel(id);
    lemma_find(after, other);
    if book.holds(other) {
        let place = book.find(id).unwrap();
        let there = book.find(other).unwrap();
        let levels = book.ladder(place.side);
        assert(after.ladder(place.side) == ladder_remove(levels, place.level, place.position));
        assert(after.ladder(place.side.opposite()) == book.ladder(place.side.opposite()));
        if there.side == place.side {
            lemma_remove_positions(levels, place.level, place.position);
            assert(occupied(levels, there.level, there.position));
            let (j, q) = image_of_removed(
                levels,
                place.level,
                place.position,
                there.level,
                there.position,
            );
            assert(order_at(after.ladder(place.side), j, q) == order_at(
                levels,
                there.level,
                there.position,
            ));
            assert(holds_at(after.ladder(place.side), j, q, other));
            lemma_resting_at(after, other, place.side, j, q);
        } else {
            assert(holds_at(after.ladder(there.side), there.level, there.position, other));
            lemma_resting_at(after, other, there.side, there.level, there.position);
        }
    }
}

/// Executing an order changes a resting order only by what the fills that
/// name it took from it: if it still rests afterwards, it is the same
/// order less that quantity; if it does not, the fills took all it had
/// open.
pub proof fn lemma_execute_accounts(book: BookView, order: Order, id: u64)
    requires
        book.wf(),
        book.admits(order),
        book.holds(id),
    ensures
        ({
            let done = book.execute(order);
            let before = book.resting(id).unwrap();
            let taken = filled_for(done.result.fills, id);
            if done.book.holds(id) {
                taken < before.current_quantity && done.book.resting(id) == Some(
                    after_fills(before, taken),
                )
            } else {
                taken == before.current_quantity
            }
        }),
{
    let side = order.side;
    let other = side.opposite();
    let opp = book.ladder(other);
    let done = book.execute(order);
    let out = match_ladder(opp, side, order.limit(), order.id, order.current_quantity);
    lemma_find(book, id);
    lemma_execute(book, order);
    lemma_resting(book, id);
    lemma_match(
        opp,
        other,
        book.security_id,
        side,
        order.limit(),
        order.id,
        order.current_quantity,
    );
    let place = book.find(id).unwrap();
    let before = book.resting(id).unwrap();
    assert(done.result.fills == out.fills);
    if place.side == side {
        assert(ladder_holds(book.ladder(side), id));
        assert(!ladder_holds(opp, id));
        assert forall|k: int| 0 <= k < out.fills.len() implies (
        #[trigger] out.fills[k]).resting_order_id != id by {
            assert(fill_ok(out.fills[k], opp, side, order.limit(), order.id));
        }
        lemma_filled_for_others(out.fills, id);
        lemma_execute_own_side(book, order, id);
        lemma_find(done.book, id);
    } else {
        lemma_fills_account(
            opp,
            other,
            book.security_id,
            side,
            order.limit(),
            order.id,
            order.current_quantity,
        );
        assert(occupied(opp, place.level, place.position));
        assert(accounted(out.levels, out.fills, before));
        assert(done.book.ladder(other) == out.levels);
        assert(id != order.id);
        if ladder_holds(out.levels, id) {
            let kept = after_fills(before, filled_for(out.fills, id));
            let (j, q) = choose|j: int, q: int| stands_at(out.levels, j, q, kept);
            assert(holds_at(done.book.ladder(other), j, q, id));
            lemma_resting_at(done.book, id, other, j, q);
        } else {
            assert(ladder_holds(opp, id));
            assert(!ladder_holds(book.ladder(side), id));
            if out.remaining > 0 && order.order_type == OrderType::Limit {
                let status = if out.fills.len() > 0 {
                    OrderStatus::PartiallyFilled
                } else {
                    order.status
                };
                let rested = Order { current_quantity: out.remaining, status, ..order };
                lemma_insert_ids(book.ladder(side), side, book.security_id, rested);
                assert(done.book.ladder(side) == ladder_insert(book.ladder(side), side, rested));
            } else {
                assert(done.book.ladder(side) == book.ladder(side));
            }
            assert(!done.book.holds(id));
        }
    }
}

/// One call on the engine.
pub enum Operation {
    Submit { request: NewOrder },
    Cancel { security_id: u128, order_id: u64 },
    Modify { security_id: u128, order_id: u64, new_price: Option<u64>, new_quantity: u64 },
}

/// What one call on the engine hands back.
pub enum Outcome {
    Submitted(Result<MatchResultView, EngineError>),
    Cancelled(Result<CancelResult, EngineError>),
    Modified(Result<ModifyResultView, EngineError>),
}

/// The engine after `op`.
pub open spec fn apply(engine: EngineView, op: Operation) -> EngineView {
    match op {
        Operation::Submit { request } => engine.submit(request).0,
        Operation::Cancel { security_id, order_id } => engine.cancel(security_id, order_id).0,
        Operation::Modify { security_id, order_id, new_price, new_quantity } => engine.modify(
            security_id,
            order_id,
            new_price,
            new_quantity,
        ).0,
    }
}

/// What `op` hands back.
pub open spec fn outcome(engine: EngineView, op: Operation) -> Outcome {
    match op {
        Operation::Submit { request } => Outcome::Submitted(engine.submit(request).1),
        Operation::Cancel { security_id, order_id } => Outcome::Cancelled(
            engine.cancel(security_id, order_id).1,
        ),
        Operation::Modify { security_id, order_id, new_price, new_quantity } => Outcome::Modified(
            engine.modify(security_id, order_id, new_price, new_quantity).1,
        ),
    }
}

/// The engine after the calls `ops`, made in order.
pub open spec fn run(engine: EngineView, ops: Seq<Operation>) -> EngineView
    decreases ops.len(),
{
    if ops.len() == 0 {
        engine
    } else {
        apply(run(engine, ops.drop_last()), ops.last())
    }
}

/// What the calls `ops`, made in order, hand back.
pub open spec fn outcomes(engine: EngineView, ops: Seq<Operation>) -> Seq<Outcome>
    decreases ops.len(),
{
    if ops.len() == 0 {
        Seq::empty()
    } else {
        outcomes(engine, ops.drop_last()).push(
            outcome(run(engine, ops.drop_last()), ops.last()),
        )
    }
}

/// Quantities that entered, traded in, and left one security's book
/// without trading.
pub struct Ledger {
    /// Quantity of the orders accepted into matching.
    pub submitted: nat,
    /// Quantity traded, counted once per fill.
    pub matched: nat,
    /// Open quantity that left without trading: cancelled, cut by an
    /// amendment, or left over from a market order.
    pub withdrawn: nat,
}

impl Ledger {
    pub open spec fn zero() -> Ledger {
        Ledger { submitted: 0, matched: 0, withdrawn: 0 }
    }

    pub open spec fn plus(self, other: Ledger) -> Ledger {
        Ledger {
            submitted: self.submitted + other.submitted,
            matched: self.matched + other.matched,
            withdrawn: self.withdrawn + other.withdrawn,
        }
    }
}

/// What executing `order` against `book` adds to the ledger.
pub open spec fn execution_entry(book: BookView, order: Order) -> Ledger {
    Ledger {
        submitted: order.current_quantity as nat,
        matched: fills_quantity(book.execute(order).result.fills),
        withdrawn: book.discarded(order),
    }
}

/// What `op` adds to the ledger of `security_id`.
pub open spec fn entry(engine: EngineView, op: Operation, security_id: u128) -> Ledger {
    match op {
        Operation::Submit { request } => {
            if request.is_valid() && request.security_id == security_id {
                execution_entry(engine.book(security_id), engine.incoming(request))
            } else {
                Ledger::zero()
            }
        },
        Operation::Cancel { security_id: s, order_id } => {
            if s == security_id && engine.holds(s, order_id) {
                Ledger {
                    submitted: 0,
                    matched: 0,
                    withdrawn: engine.books[s].resting(order_id).unwrap().current_quantity as nat,
                }
            } else {
                Ledger::zero()
            }
        },
        Operation::Modify { security_id: s, order_id, new_price, new_quantity } => {
            if s == security_id && new_quantity > 0 && engine.holds(s, order_id) {
                let book = engine.books[s];
                let order = book.resting(order_id).unwrap();
                if EngineView::keeps_priority(order, new_price, new_quantity) {
                    Ledger {
                        submitted: 0,
                        matched: 0,
                        withdrawn: (order.current_quantity - new_quantity) as nat,
                    }
                } else {
                    Ledger {
                        submitted: 0,
                        matched: 0,
                        withdrawn: order.current_quantity as nat,
                    }.plus(
                        execution_entry(
                            book.cancel(order_id),
                            engine.resubmitted(order, new_price, new_quantity),
                        ),
                    )
                }
            } else {
                Ledger::zero()
            }
        },
    }
}

/// The ledger of `security_id` over the calls `ops`, made in order.
pub open spec fn ledger(engine: EngineView, ops: Seq<Operation>, security_id: u128) -> Ledger
    decreases ops.len(),
{
    if ops.len() == 0 {
        Ledger::zero()
    } else {
        ledger(engine, ops.drop_last(), security_id).plus(
            entry(run(engine, ops.drop_last()), ops.last(), security_id),
        )
    }
}

/// One call keeps the engine well formed, gives out at most one number,
/// and balances: what rests afterwards, plus twice what traded, plus what
/// was withdrawn, is what rested before plus what was submitted.
pub proof fn lemma_step(engine: EngineView, op: Operation, security_id: u128)
    requires
        engine.wf(),
        engine.has_capacity(),
    ensures
        apply(engine, op).wf(),
        engine.next_sequence <= apply(engine, op).next_sequence <= engine.next_sequence + 1,
        apply(engine, op).book(security_id).open_quantity() + 2 * entry(
            engine,
            op,
            security_id,
        ).matched + entry(engine, op, security_id).withdrawn == engine.book(
            security_id,
        ).open_quantity() + entry(engine, op, security_id).submitted,
{
    match op {
        Operation::Submit { request } => {
            lemma_submit_wf(engine, request);
            if request.is_valid() && request.security_id == security_id {
                lemma_execute(engine.book(security_id), engine.incoming(request));
            }
        },
        Operation::Cancel { security_id: s, order_id } => {
            lemma_cancel_wf(engine, s, order_id);
            if s == security_id && engine.holds(s, order_id) {
                lemma_cancel(engine.books[s], order_id);
            }
        },
        Operation::Modify { security_id: s, order_id, new_price, new_quantity } => {
            lemma_modify_wf(engine, s, order_id, new_price, new_quantity);
            if s == security_id && new_quantity > 0 && engine.holds(s, order_id) {
                let book = engine.books[s];
                let order = book.resting(order_id).unwrap();
                lemma_resting(book, order_id);
                if EngineView::keeps_priority(order, new_price, new_quantity) {
                    lemma_reduce(book, order_id, new_quantity);
                } else {
                    lemma_cancel(book, order_id);
                    lemma_execute(
                        book.cancel(order_id),
                        engine.resubmitted(order, new_price, new_quantity),
                    );
                }
            }
        },
    }
}

/// Conservation of quantity. Through any sequence of calls, for every
/// security: the open quantity resting at the end, plus twice the quantity
/// traded, plus the open quantity withdrawn without trading, equals the
/// open quantity resting at the start plus the quantity submitted. The
/// engine stays well formed throughout.
pub proof fn lemma_conservation(engine: EngineView, ops: Seq<Operation>, security_id: u128)
    requires
        engine.wf(),
        engine.next_sequence + ops.len() <= u64::MAX,
    ensures
        run(engine, ops).wf(),
        run(engine, ops).next_sequence <= engine.next_sequence + ops.len(),
        run(engine, ops).book(security_id).open_quantity() + 2 * ledger(
            engine,
            ops,
            security_id,
        ).matched + ledger(engine, ops, security_id).withdrawn == engine.book(
            security_id,
        ).open_quantity() + ledger(engine, ops, security_id).submitted,
    decreases ops.len(),
{
    if ops.len() > 0 {
        lemma_conservation(engine, ops.drop_last(), security_id);
        lemma_step(run(engine, ops.drop_last()), ops.last(), security_id);
    }
}

/// Conservation, from an empty engine. Through any sequence of calls in
/// which no open quantity was withdrawn from a security's book, the open
/// quantity resting in that book plus twice the quantity traded equals the
/// quantity submitted: each fill takes its quantity from exactly two
/// orders.
pub proof fn lemma_conservation_from_empty(ops: Seq<Operation>, security_id: u128)
    requires
        ops.len() <= u64::MAX,
        ledger(EngineView::new(), ops, security_id).withdrawn == 0,
    ensures
        run(EngineView::new(), ops).book(security_id).open_quantity() + 2 * ledger(
            EngineView::new(),
            ops,
            security_id,
        ).matched == ledger(EngineView::new(), ops, security_id).submitted,
{
    lemma_conservation(EngineView::new(), ops, security_id);
    lemma_sum_empty(level_quantity());
}

/// No cross. After any call on a well formed engine, every book that has
/// both a best bid and a best ask has the bid strictly below the ask.
pub proof fn lemma_never_crossed(engine: EngineView, op: Operation, security_id: u128)
    requires
        engine.wf(),
        engine.has_capacity(),
    ensures
        apply(engine, op).book(security_id).uncrossed(),
{
    lemma_step(engine, op, security_id);
    assert(apply(engine, op).books.contains_key(security_id) ==> apply(
        engine,
        op,
    ).books[security_id].wf());
}

/// No cross, throughout. After any sequence of calls on a well formed
/// engine, every book that has both a best bid and a best ask has the bid
/// strictly below the ask.
pub proof fn lemma_run_uncrossed(engine: EngineView, ops: Seq<Operation>, security_id: u128)
    requires
        engine.wf(),
        engine.next_sequence + ops.len() <= u64::MAX,
    ensures
        run(engine, ops).book(security_id).uncrossed(),
{
    lemma_conservation(engine, ops, security_id);
    assert(run(engine, ops).books.contains_key(security_id) ==> run(
        engine,
        ops,
    ).books[security_id].wf());
}

/// Determinism. The same calls made in the same order on the same engine
/// leave the same engine and hand back the same results.
pub proof fn lemma_replay(first: EngineView, second: EngineView, ops: Seq<Operation>)
    requires
        first.books =~= second.books,
        first.next_sequence == second.next_sequence,
    ensures
        run(first, ops) == run(second, ops),
        outcomes(first, ops) == outcomes(second, ops),
{
}

/// A cancel fails exactly when no order with that identifier rests in the
/// book; it then fails with `OrderNotFound` and changes nothing.
pub proof fn lemma_cancel_absent(engine: EngineView, security_id: u128, order_id: u64)
    ensures
        engine.cancel(security_id, order_id).1.is_err() <==> !engine.holds(security_id, order_id),
        !engine.holds(security_id, order_id) ==> engine.cancel(security_id, order_id) == (
            engine,
            Err::<CancelResult, EngineError>(EngineError::OrderNotFound),
        ),
{
}

/// Cancelling twice. Whatever the first cancel did, a second cancel of the
/// same identifier fails with `OrderNotFound` and changes nothing.
pub proof fn lemma_cancel_twice(engine: EngineView, security_id: u128, order_id: u64)
    requires
        engine.wf(),
    ensures
        ({
            let once = engine.cancel(security_id, order_id).0;
            once.cancel(security_id, order_id) == (
                once,
                Err::<CancelResult, EngineError>(EngineError::OrderNotFound),
            )
        }),
{
    if engine.holds(security_id, order_id) {
        lemma_cancel(engine.books[security_id], order_id);
    }
}

/// An order that did not come to rest cannot be cancelled: after a submit
/// whose order was filled, or was a market order, a cancel of its
/// identifier fails with `OrderNotFound`. One that did come to rest can,
/// and rests as the request it came from, numbered by the engine, with the
/// quantity that matching left it.
pub proof fn lemma_cancel_after_submit(engine: EngineView, request: NewOrder)
    requires
        engine.wf(),
        engine.has_capacity(),
        request.is_valid(),
    ensures
        ({
            let (after, result) = engine.submit(request);
            let id = result.unwrap().order_id;
            &&& id == engine.next_sequence
            &&& after.holds(request.security_id, id) <==> result.unwrap().resting.is_some()
            &&& result.unwrap().resting.is_some() <==> result.unwrap().status.is_open()
            &&& after.cancel(request.security_id, id).1.is_ok()
                <==> result.unwrap().status.is_open()
            &&& result.unwrap().resting.is_some() ==> after.books[request.security_id].resting(id)
                == Some(
                Order {
                    current_quantity: result.unwrap().resting.unwrap().remaining_quantity,
                    status: result.unwrap().status,
                    ..engine.incoming(request)
                },
            )
        }),
{
    lemma_submit_wf(engine, request);
    lemma_execute(engine.book(request.security_id), engine.incoming(request));
    if engine.submit(request).1.unwrap().resting.is_some() {
        lemma_execute_rested(engine.book(request.security_id), engine.incoming(request));
    }
}


/// Identifiers are never reused. No call brings into a book an identifier
/// that the engine has already given out and that does not rest there: an
/// order that was filled or cancelled stays out.
pub proof fn lemma_gone_stays_gone(
    engine: EngineView,
    op: Operation,
    security_id: u128,
    order_id: u64,
)
    requires
        engine.wf(),
        engine.has_capacity(),
        order_id < engine.next_sequence,
        !engine.holds(security_id, order_id),
    ensures
        !apply(engine, op).holds(security_id, order_id),
        apply(engine, op).cancel(security_id, order_id).1 == Err::<CancelResult, EngineError>(
            EngineError::OrderNotFound,
        ),
{
    match op {
        Operation::Submit { request } => {
            if request.is_valid() && request.security_id == security_id {
                lemma_submit_wf(engine, request);
                lemma_empty_book(security_id, engine.next_sequence);
                lemma_execute(engine.book(security_id), engine.incoming(request));
            }
        },
        Operation::Cancel { security_id: s, order_id: id } => {
            if s == security_id && engine.holds(s, id) {
                lemma_cancel(engine.books[s], id);
            }
        },
        Operation::Modify { security_id: s, order_id: id, new_price, new_quantity } => {
            if s == security_id && new_quantity > 0 && engine.holds(s, id) {
                let book = engine.books[s];
                let target = book.resting(id).unwrap();
                lemma_resting(book, id);
                lemma_modify_wf(engine, s, id, new_price, new_quantity);
                if EngineView::keeps_priority(target, new_price, new_quantity) {
                    lemma_reduce(book, id, new_quantity);
                } else {
                    lemma_cancel(book, id);
                    lemma_execute(
                        book.cancel(id),
                        engine.resubmitted(target, new_price, new_quantity),
                    );
                }
            }
        },
    }
}

/// An order that is out of the book stays out through any sequence of
/// calls, and a cancel of its identifier fails with `OrderNotFound` ever
/// after.
pub proof fn lemma_gone_for_good(
    engine: EngineView,
    ops: Seq<Operation>,
    security_id: u128,
    order_id: u64,
)
    requires
        engine.wf(),
        engine.next_sequence + ops.len() <= u64::MAX,
        order_id < engine.next_sequence,
        !engine.holds(security_id, order_id),
    ensures
        !run(engine, ops).holds(security_id, order_id),
        run(engine, ops).cancel(security_id, order_id).1 == Err::<CancelResult, EngineError>(
            EngineError::OrderNotFound,
        ),
    decreases ops.len(),
{
    if ops.len() > 0 {
        let before = run(engine, ops.drop_last());
        lemma_gone_for_good(engine, ops.drop_last(), security_id, order_id);
        lemma_conservation(engine, ops.drop_last(), security_id);
        lemma_run_counts(engine, ops.drop_last());
        lemma_gone_stays_gone(before, ops.last(), security_id, order_id);
    }
}

/// The counter never runs backwards.
pub proof fn lemma_run_counts(engine: EngineView, ops: Seq<Operation>)
    requires
        engine.wf(),
        engine.next_sequence + ops.len() <= u64::MAX,
    ensures
        engine.next_sequence <= run(engine, ops).next_sequence <= engine.next_sequence + ops.len(),
    decreases ops.len(),
{
    if ops.len() > 0 {
        lemma_run_counts(engine, ops.drop_last());
        lemma_conservation(engine, ops.drop_last(), 0);
        lemma_step(run(engine, ops.drop_last()), ops.last(), 0);
    }
}

/// Cancelling an order takes it out of depth at once: the level it stood
/// in shows exactly its open quantity less, or is gone if the order stood
/// there alone; every other level, and the other side, show what they
/// showed.
pub proof fn lemma_cancel_depth(book: BookView, id: u64)
    requires
        book.wf(),
        book.holds(id),
    ensures
        ({
            let place = book.find(id).unwrap();
            let before = book.ladder(place.side);
            let after = book.cancel(id).ladder(place.side);
            let gone = book.resting(id).unwrap();
            let shown = ladder_depth(before, before.len());
            &&& book.cancel(id).ladder(place.side.opposite()) == book.ladder(place.side.opposite())
            &&& 0 <= place.level < before.len()
            &&& gone.current_quantity <= before[place.level].quantity()
            &&& ladder_depth(after, before.len()) == (if before[place.level].orders.len() == 1 {
                shown.remove(place.level)
            } else {
                shown.update(
                    place.level,
                    DepthLevel {
                        price: before[place.level].price,
                        quantity: (before[place.level].quantity() - gone.current_quantity) as u128,
                    },
                )
            })
        }),
{
    lemma_find(book, id);
    let place = book.find(id).unwrap();
    let before = book.ladder(place.side);
    let after = book.cancel(id).ladder(place.side);
    let shown = ladder_depth(before, before.len());
    assert(after == ladder_remove(before, place.level, place.position));
    lemma_sum_remove(before[place.level].orders, place.position, open_quantity());
    if before[place.level].orders.len() == 1 {
        assert(ladder_depth(after, before.len()) =~= shown.remove(place.level));
    } else {
        assert(ladder_depth(after, before.len()) =~= shown.update(
            place.level,
            DepthLevel {
                price: before[place.level].price,
                quantity: (before[place.level].quantity()
                    - book.resting(id).unwrap().current_quantity) as u128,
            },
        ));
    }
}

/// Depth is shown from best to worst. In a well formed ladder the levels
/// that depth lists have strictly worsening prices, and each shows a
/// positive quantity: the sum of what its orders have open.
pub proof fn lemma_depth_ordered(
    levels: Seq<LevelView>,
    side: Side,
    security_id: u128,
    count: nat,
)
    requires
        ladder_wf(levels, side, security_id),
    ensures
        ladder_depth(levels, count).len() == (if count < levels.len() {
            count
        } else {
            levels.len()
        }),
        forall|i: int, j: int|
            0 <= i < j < ladder_depth(levels, count).len() ==> better(
                side,
                (#[trigger] ladder_depth(levels, count)[i]).price,
                (#[trigger] ladder_depth(levels, count)[j]).price,
            ),
        forall|i: int|
            0 <= i < ladder_depth(levels, count).len() ==> levels[i].quantity() > 0 && (
            #[trigger] ladder_depth(levels, count)[i]) == (DepthLevel {
                price: levels[i].price,
                quantity: levels[i].quantity() as u128,
            }),
{
    let shown = ladder_depth(levels, count);
    assert forall|i: int, j: int| 0 <= i < j < shown.len() implies better(
        side,
        (#[trigger] shown[i]).price,
        (#[trigger] shown[j]).price,
    ) by {
        assert(better(side, levels[i].price, levels[j].price));
    }
    assert forall|i: int| 0 <= i < shown.len() implies levels[i].quantity() > 0 by {
        let orders = levels[i].orders;
        assert(levels[i].wf(side, security_id));
        assert(rests_at(orders[0], side, levels[i].price, security_id));
        lemma_sum_remove(orders, 0, open_quantity());
    }
}

/// An order that comes to rest stands at the back of the level at its
/// price on its own side, with the quantity matching left it.
pub proof fn lemma_execute_rested(book: BookView, order: Order)
    requires
        book.wf(),
        book.admits(order),
        book.execute(order).result.resting.is_some(),
    ensures
        ({
            let done = book.execute(order);
            let place = done.book.find(order.id).unwrap();
            let level = done.book.ladder(place.side)[place.level];
            &&& done.book.holds(order.id)
            &&& place.side == order.side
            &&& level.price == order.price.unwrap()
            &&& place.position == level.orders.len() - 1
            &&& done.book.resting(order.id) == Some(
                Order {
                    current_quantity: done.result.resting.unwrap().remaining_quantity,
                    status: done.result.status,
                    ..order
                },
            )
        }),
{
    let side = order.side;
    let own = book.ladder(side);
    let done = book.execute(order);
    lemma_execute(book, order);
    let out = match_ladder(
        book.ladder(side.opposite()),
        side,
        order.limit(),
        order.id,
        order.current_quantity,
    );
    let rested = Order {
        current_quantity: out.remaining,
        status: done.result.status,
        ..order
    };
    lemma_insert_positions(own, side, book.security_id, rested);
    let (k, n) = slot_of_inserted(own, side, rested);
    assert(done.book.ladder(side) == ladder_insert(own, side, rested));
    assert(holds_at(done.book.ladder(side), k, n, order.id));
    lemma_resting_at(done.book, order.id, side, k, n);
}

/// Amending in place keeps priority. An amendment that leaves the price
/// alone and does not raise the open quantity changes that quantity and
/// nothing else: the order stays at its place in its queue under its old
/// sequence number, every other order stays where and as it was, and no
/// number is given out.
pub proof fn lemma_modify_keeps_place(
    engine: EngineView,
    security_id: u128,
    order_id: u64,
    new_price: Option<u64>,
    new_quantity: u64,
)
    requires
        engine.wf(),
        engine.holds(security_id, order_id),
        new_quantity > 0,
        EngineView::keeps_priority(
            engine.books[security_id].resting(order_id).unwrap(),
            new_price,
            new_quantity,
        ),
    ensures
        ({
            let before = engine.books[security_id];
            let amended = engine.modify(security_id, order_id, new_price, new_quantity).0;
            let after = amended.books[security_id];
            &&& amended.next_sequence == engine.next_sequence
            &&& after.resting(order_id) == Some(
                Order { current_quantity: new_quantity, ..before.resting(order_id).unwrap() },
            )
            &&& forall|x: u64| #[trigger] after.find(x) == before.find(x)
            &&& forall|x: u64| x != order_id ==> #[trigger] after.resting(x) == before.resting(x)
        }),
{
    let before = engine.books[security_id];
    let after = before.reduce(order_id, new_quantity);
    lemma_find(before, order_id);
    lemma_reduce(before, order_id, new_quantity);
    let place = before.find(order_id).unwrap();
    let levels = before.ladder(place.side);
    let status = before.order_at(place).status;
    lemma_reopen_ids(levels, place.level, place.position, new_quantity, status);
    assert(after.ladder(place.side) == ladder_reopen(
        levels,
        place.level,
        place.position,
        new_quantity,
        status,
    ));
    assert(after.ladder(place.side.opposite()) == before.ladder(place.side.opposite()));
    assert forall|x: u64|
        #[trigger] after.find(x) == before.find(x) && (x != order_id ==> after.resting(x)
            == before.resting(x)) by {
        lemma_find(before, x);
        lemma_find(after, x);
        if before.holds(x) {
            let px = before.find(x).unwrap();
            assert(holds_at(after.ladder(px.side), px.level, px.position, x));
            lemma_resting_at(after, x, px.side, px.level, px.position);
            if x != order_id {
                if px.side == place.side && px.level != place.level {
                    assert(after.ladder(px.side)[px.level] == levels[px.level]);
                }
            }
        }
    }
    assert(holds_at(after.ladder(place.side), place.level, place.position, order_id));
    lemma_resting_at(after, order_id, place.side, place.level, place.position);
}

/// Any other amendment gives up priority. An amendment that changes the
/// price or raises the open quantity gives the order the next sequence
/// number and runs it through matching; if it comes to rest, it stands
/// at the back of the level at its new price.
pub proof fn lemma_modify_requeues(
    engine: EngineView,
    security_id: u128,
    order_id: u64,
    new_price: Option<u64>,
    new_quantity: u64,
)
    requires
        engine.wf(),
        engine.has_capacity(),
        engine.holds(security_id, order_id),
        new_quantity > 0,
        !EngineView::keeps_priority(
            engine.books[security_id].resting(order_id).unwrap(),
            new_price,
            new_quantity,
        ),
    ensures
        ({
            let old_order = engine.books[security_id].resting(order_id).unwrap();
            let (amended, result) = engine.modify(security_id, order_id, new_price, new_quantity);
            let after = amended.books[security_id];
            &&& amended.next_sequence == engine.next_sequence + 1
            &&& result.is_ok()
            &&& result.unwrap().rematch.is_some()
            &&& after.holds(order_id) <==> result.unwrap().rematch.unwrap().resting.is_some()
            &&& after.holds(order_id) ==> {
                let place = after.find(order_id).unwrap();
                let level = after.ladder(place.side)[place.level];
                &&& after.resting(order_id).unwrap().sequence == engine.next_sequence
                &&& level.price == EngineView::amended_price(old_order, new_price)
                &&& place.position == level.orders.len() - 1
            }
        }),
{
    let book = engine.books[security_id];
    let order = book.resting(order_id).unwrap();
    let again = engine.resubmitted(order, new_price, new_quantity);
    lemma_modify_wf(engine, security_id, order_id, new_price, new_quantity);
    lemma_resting(book, order_id);
    lemma_execute(book.cancel(order_id), again);
    if book.cancel(order_id).execute(again).result.resting.is_some() {
        lemma_execute_rested(book.cancel(order_id), again);
    }
}

/// Priority of arrival. Of two limit orders submitted one after the other
/// at the same price on the same side, the first is served first: when a
/// third order is submitted, the second is left exactly as it was unless
/// the first has been traded out of the book.
pub proof fn lemma_arrival_priority(
    engine: EngineView,
    first: NewOrder,
    second: NewOrder,
    third: NewOrder,
)
    requires
        engine.wf(),
        engine.next_sequence + 3 <= u64::MAX,
        first.is_valid(),
        second.is_valid(),
        first.order_type == OrderType::Limit,
        second.order_type == OrderType::Limit,
        first.security_id == second.security_id,
        first.side == second.side,
        first.price == second.price,
    ensures
        ({
            let (e1, r1) = engine.submit(first);
            let (e2, r2) = e1.submit(second);
            let e3 = e2.submit(third).0;
            let s = first.security_id;
            let a = r1.unwrap().order_id;
            let b = r2.unwrap().order_id;
            e2.holds(s, a) && e2.holds(s, b) ==> e3.book(s).resting(b) == e2.book(s).resting(b)
                || !e3.holds(s, a)
        }),
{
    let (e1, r1) = engine.submit(first);
    let (e2, r2) = e1.submit(second);
    let e3 = e2.submit(third).0;
    let s = first.security_id;
    let a = r1.unwrap().order_id;
    let b = r2.unwrap().order_id;
    lemma_submit_wf(engine, first);
    lemma_submit_wf(e1, second);
    lemma_submit_wf(e2, third);
    if e2.holds(s, a) && e2.holds(s, b) {
        let book0 = engine.book(s);
        let book1 = e1.books[s];
        let book2 = e2.books[s];
        let o1 = engine.incoming(first);
        let o2 = e1.incoming(second);
        assert(e1.book(s) == book1);
        assert(book1 == book0.execute(o1).book);
        assert(book2 == book1.execute(o2).book);
        lemma_execute(book0, o1);
        lemma_execute(book1, o2);
        assert(book1.holds(a));
        lemma_execute_rested(book0, o1);
        lemma_execute_rested(book1, o2);
        lemma_find(book1, a);
        assert(ladder_holds(book1.ladder(o2.side), a));
        lemma_execute_own_side(book1, o2, a);
        if third.is_valid() && third.security_id == s {
            lemma_priority(book2, a, b, e2.incoming(third));
        } else {
            assert(e3.book(s) == e2.book(s));
        }
    }
}


/// `op` is an amendment of the order `order_id` of `security_id` that gives
/// up its priority.
pub open spec fn requeues(
    engine: EngineView,
    op: Operation,
    security_id: u128,
    order_id: u64,
) -> bool {
    match op {
        Operation::Modify { security_id: s, order_id: id, new_price, new_quantity } => {
            &&& s == security_id
            &&& id == order_id
            &&& new_quantity > 0
            &&& engine.holds(s, id)
            &&& !EngineView::keeps_priority(
                engine.books[s].resting(id).unwrap(),
                new_price,
                new_quantity,
            )
        },
        _ => false,
    }
}

/// What a call may change of an order that rests before and after it.
///
/// Its identifier, security, side and type never change, and its status
/// never goes back from partially filled to active. Unless the call is an
/// amendment of this very order that gives up its priority, its price,
/// its sequence number and its initial quantity do not change either, and
/// its open quantity does not grow.
pub proof fn lemma_resting_frame(
    engine: EngineView,
    op: Operation,
    security_id: u128,
    order_id: u64,
)
    requires
        engine.wf(),
        engine.has_capacity(),
        engine.holds(security_id, order_id),
        apply(engine, op).holds(security_id, order_id),
    ensures
        ({
            let before = engine.books[security_id].resting(order_id).unwrap();
            let after = apply(engine, op).books[security_id].resting(order_id).unwrap();
            &&& after.id == before.id
            &&& after.security_id == before.security_id
            &&& after.side == before.side
            &&& after.order_type == before.order_type
            &&& before.status == OrderStatus::PartiallyFilled ==> after.status
                == OrderStatus::PartiallyFilled
            &&& !requeues(engine, op, security_id, order_id) ==> {
                &&& after.price == before.price
                &&& after.sequence == before.sequence
                &&& after.initial_quantity == before.initial_quantity
                &&& after.current_quantity <= before.current_quantity
            }
        }),
{
    let book = engine.books[security_id];
    lemma_resting(book, order_id);
    match op {
        Operation::Submit { request } => {
            if request.is_valid() && request.security_id == security_id {
                lemma_submit_wf(engine, request);
                lemma_execute_accounts(book, engine.incoming(request), order_id);
            }
        },
        Operation::Cancel { security_id: s, order_id: id } => {
            if s == security_id && engine.holds(s, id) {
                lemma_cancel(book, id);
                if id != order_id {
                    lemma_cancel_others(book, id, order_id);
                }
            }
        },
        Operation::Modify { security_id: s, order_id: id, new_price, new_quantity } => {
            if s == security_id && new_quantity > 0 && engine.holds(s, id) {
                let target = book.resting(id).unwrap();
                lemma_resting(book, id);
                lemma_modify_wf(engine, s, id, new_price, new_quantity);
                if EngineView::keeps_priority(target, new_price, new_quantity) {
                    lemma_modify_keeps_place(engine, s, id, new_price, new_quantity);
                } else {
                    let again = engine.resubmitted(target, new_price, new_quantity);
                    let without = book.cancel(id);
                    lemma_cancel(book, id);
                    lemma_execute(without, again);
                    if id == order_id {
                        lemma_execute_rested(without, again);
                    } else {
                        lemma_cancel_others(book, id, order_id);
                        lemma_execute_accounts(without, again, order_id);
                    }
                }
            }
        },
    }
}


/// Priority persists. Two orders that rest at the same price on the same
/// side keep their order of arrival through any call that leaves both in
/// the book, unless the call is an amendment of one of them that gives up
/// its priority.
pub proof fn lemma_priority_persists(
    engine: EngineView,
    op: Operation,
    security_id: u128,
    first: u64,
    second: u64,
)
    requires
        engine.wf(),
        engine.has_capacity(),
        engine.holds(security_id, first),
        engine.holds(security_id, second),
        apply(engine, op).holds(security_id, first),
        apply(engine, op).holds(security_id, second),
        !requeues(engine, op, security_id, first),
        !requeues(engine, op, security_id, second),
        ({
            let a = engine.books[security_id].resting(first).unwrap();
            let b = engine.books[security_id].resting(second).unwrap();
            a.side == b.side && a.price == b.price && a.sequence < b.sequence
        }),
    ensures
        ({
            let a = apply(engine, op).books[security_id].resting(first).unwrap();
            let b = apply(engine, op).books[security_id].resting(second).unwrap();
            a.side == b.side && a.price == b.price && a.sequence < b.sequence
        }),
{
    lemma_resting_frame(engine, op, security_id, first);
    lemma_resting_frame(engine, op, security_id, second);
}


/// No call among `ops`, made in order, is an amendment of the order
/// `order_id` of `security_id` that gives up its priority.
pub open spec fn never_requeued(
    engine: EngineView,
    ops: Seq<Operation>,
    security_id: u128,
    order_id: u64,
) -> bool
    decreases ops.len(),
{
    if ops.len() == 0 {
        true
    } else {
        &&& never_requeued(engine, ops.drop_last(), security_id, order_id)
        &&& !requeues(run(engine, ops.drop_last()), ops.last(), security_id, order_id)
    }
}

/// Priority, throughout. Two orders that rest at the same price on the
/// same side, and still rest after any sequence of calls none of which
/// amended either of them out of its priority, are still at the same price
/// on the same side and in the same order of arrival.
pub proof fn lemma_priority_throughout(
    engine: EngineView,
    ops: Seq<Operation>,
    security_id: u128,
    first: u64,
    second: u64,
)
    requires
        engine.wf(),
        engine.next_sequence + ops.len() <= u64::MAX,
        engine.holds(security_id, first),
        engine.holds(security_id, second),
        run(engine, ops).holds(security_id, first),
        run(engine, ops).holds(security_id, second),
        never_requeued(engine, ops, security_id, first),
        never_requeued(engine, ops, security_id, second),
        ({
            let a = engine.books[security_id].resting(first).unwrap();
            let b = engine.books[security_id].resting(second).unwrap();
            a.side == b.side && a.price == b.price && a.sequence < b.sequence
        }),
    ensures
        ({
            let a = run(engine, ops).books[security_id].resting(first).unwrap();
            let b = run(engine, ops).books[security_id].resting(second).unwrap();
            a.side == b.side && a.price == b.price && a.sequence < b.sequence
        }),
    decreases ops.len(),
{
    if ops.len() > 0 {
        let earlier = ops.drop_last();
        let before = run(engine, earlier);
        lemma_conservation(engine, earlier, security_id);
        lemma_run_counts(engine, earlier);
        lemma_resting(engine.books[security_id], first);
        lemma_resting(engine.books[security_id], second);
        assert(engine.books[security_id].below(engine.next_sequence));
        if !before.holds(security_id, first) {
            lemma_gone_stays_gone(before, ops.last(), security_id, first);
        }
        if !before.holds(security_id, second) {
            lemma_gone_stays_gone(before, ops.last(), security_id, second);
        }
        lemma_priority_throughout(engine, earlier, security_id, first, second);
        lemma_priority_persists(before, ops.last(), security_id, first, second);
    }
}

} // verus!
