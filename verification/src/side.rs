//! One side of a book as it is held in memory: a vector of price levels,
//! best price first.

use crate::ladder::{
    better, crosses, front_queue_len, holds_at, indexes, ladder_below, ladder_depth,
    ladder_distinct, ladder_holds, ladder_insert, ladder_remove, ladder_reopen, ladder_wf,
    lemma_index_insert, lemma_index_locate, lemma_index_remove, lemma_index_reopen,
    lemma_insert_ids, lemma_insert_wf, lemma_match, lemma_rank_unique, lemma_remove_ids,
    lemma_remove_wf, lemma_reopen_ids, lemma_reopen_wf, match_ladder, occupied, rank,
};
use crate::level::{rests_at, LevelView, PriceLevel};
use crate::types::{DepthLevel, Fill, Order, OrderStatus, Side};
use std::collections::HashMap;
use vstd::prelude::*;

verus! {

/// Whether, on `side`, price `a` has priority over price `b`.
pub fn has_priority(side: Side, a: u64, b: u64) -> (yes: bool)
    ensures
        yes == better(side, a, b),
{
    match side {
        Side::Buy => a > b,
        Side::Sell => a < b,
    }
}

/// Whether an incoming order on side `taker`, bounded by `limit`, may trade
/// at `price`.
pub fn accepts(taker: Side, limit: Option<u64>, price: u64) -> (yes: bool)
    ensures
        yes == crosses(taker, limit, price),
{
    match limit {
        None => true,
        Some(bound) => match taker {
            Side::Buy => bound >= price,
            Side::Sell => bound <= price,
        },
    }
}

/// The resting orders of one side of one security's book: the price
/// levels, best first, and an index from each resting order's identifier to
/// the price of the level it stands in.
#[derive(Debug)]
pub struct BookSide {
    side: Side,
    security_id: u128,
    levels: Vec<PriceLevel>,
    index: HashMap<u64, u64>,
}

impl View for BookSide {
    type V = Seq<LevelView>;

    closed spec fn view(&self) -> Seq<LevelView> {
        Seq::new(self.levels@.len(), |i: int| self.levels@[i]@)
    }
}

impl BookSide {
    /// Which side of the book this is.
    pub closed spec fn side(&self) -> Side {
        self.side
    }

    /// The security whose orders rest here.
    pub closed spec fn security_id(&self) -> u128 {
        self.security_id
    }

    /// Every level's stored aggregate agrees with its queue, and the index
    /// agrees with the ladder.
    pub closed spec fn inv(&self) -> bool {
        &&& forall|i: int| 0 <= i < self.levels@.len() ==> (#[trigger] self.levels@[i]).inv()
        &&& indexes(self.index@, self@)
    }

    /// The side is well formed when its representation is sound, its
    /// ladder is well formed for its side and security, and no identifier
    /// rests in it twice.
    pub open spec fn wf(&self) -> bool {
        &&& self.inv()
        &&& ladder_wf(self@, self.side(), self.security_id())
        &&& ladder_distinct(self@)
    }

    /// An empty side.
    pub fn new(side: Side, security_id: u128) -> (s: BookSide)
        ensures
            s.wf(),
            s.side() == side,
            s.security_id() == security_id,
            s@ == Seq::<LevelView>::empty(),
    {
        let s = BookSide { side, security_id, levels: Vec::new(), index: HashMap::new() };
        assert(s@ =~= Seq::<LevelView>::empty());
        assert forall|id: u64| !ladder_holds(s@, id) by {
            if ladder_holds(s@, id) {
                let (i, p) = choose|i: int, p: int| holds_at(s@, i, p, id);
                assert(holds_at(s@, i, p, id));
            }
        }
        s
    }

    /// Number of price levels.
    pub fn len(&self) -> (n: usize)
        ensures
            n == self@.len(),
    {
        self.levels.len()
    }

    /// The best price on this side, if any order rests here.
    pub fn best_price(&self) -> (best: Option<u64>)
        ensures
            best == (if self@.len() > 0 {
                Some(self@[0].price)
            } else {
                None
            }),
    {
        if self.levels.len() > 0 {
            Some(self.levels[0].price())
        } else {
            None
        }
    }

    /// The order at position `p` of level `i`.
    pub fn order_at(&self, i: usize, p: usize) -> (order: Order)
        requires
            occupied(self@, i as int, p as int),
        ensures
            order == self@[i as int].orders[p as int],
    {
        self.levels[i].get(p)
    }

    /// Trades an incoming order of `quantity`, bounded by `limit`, against
    /// this side, best price first and oldest order first within a price.
    /// Returns the fills in the order they were made and the quantity left.
    pub fn match_incoming(&mut self, limit: Option<u64>, taker_id: u64, quantity: u64) -> (r: (
        Vec<Fill>,
        u64,
    ))
        requires
            old(self).wf(),
        ensures
            final(self).wf(),
            final(self).side() == old(self).side(),
            final(self).security_id() == old(self).security_id(),
            ({
                let out = match_ladder(
                    old(self)@,
                    old(self).side().opposite(),
                    limit,
                    taker_id,
                    quantity,
                );
                &&& final(self)@ == out.levels
                &&& r.0@ == out.fills
                &&& r.1 == out.remaining
            }),
    {
        let taker = self.side.flip();
        let mut fills: Vec<Fill> = Vec::new();
        let mut remaining: u64 = quantity;
        proof {
            lemma_match(old(self)@, self.side, self.security_id, taker, limit, taker_id, quantity);
        }
        while remaining > 0 && self.levels.len() > 0 && accepts(
            taker,
            limit,
            self.levels[0].price(),
        )
            invariant
                self.inv(),
                ladder_distinct(self@),
                self.side == old(self).side,
                self.security_id == old(self).security_id,
                taker == self.side.opposite(),
                forall|i: int| 0 <= i < self@.len() ==> (#[trigger] self@[i]).orders.len() > 0,
                ({
                    let full = match_ladder(old(self)@, taker, limit, taker_id, quantity);
                    let rest = match_ladder(self@, taker, limit, taker_id, remaining);
                    &&& full.levels == rest.levels
                    &&& full.remaining == rest.remaining
                    &&& full.fills == fills@ + rest.fills
                }),
            decreases self@.len(), front_queue_len(self@), remaining,
        {
            let ghost before = self@;
            let ghost done = fills@;
            assert(before[0].orders.len() > 0);
            assert(before[0] == self.levels@[0]@);
            let maker = self.levels[0].get(0);
            let price = self.levels[0].price();
            if remaining < maker.current_quantity {
                let left = maker.current_quantity - remaining;
                self.levels[0].set_open(0, left, OrderStatus::PartiallyFilled);
                let fill = Fill {
                    resting_order_id: maker.id,
                    incoming_order_id: taker_id,
                    price,
                    quantity: remaining,
                };
                fills.push(fill);
                remaining = 0;
                proof {
                    assert(self@ =~= ladder_reopen(
                        before,
                        0,
                        0,
                        left,
                        OrderStatus::PartiallyFilled,
                    ));
                    lemma_reopen_ids(before, 0, 0, left, OrderStatus::PartiallyFilled);
                    lemma_index_reopen(
                        self.index@,
                        before,
                        0,
                        0,
                        left,
                        OrderStatus::PartiallyFilled,
                    );
                    assert(fills@ + Seq::<Fill>::empty() =~= done + seq![fill]);
                }
            } else {
                let ghost filed = self.index@;
                if self.levels[0].len() == 1 {
                    self.levels.remove(0);
                } else {
                    self.levels[0].remove(0);
                }
                self.index.remove(&maker.id);
                let fill = Fill {
                    resting_order_id: maker.id,
                    incoming_order_id: taker_id,
                    price,
                    quantity: maker.current_quantity,
                };
                fills.push(fill);
                remaining = remaining - maker.current_quantity;
                proof {
                    assert(self@ =~= ladder_remove(before, 0, 0));
                    lemma_remove_ids(before, 0, 0);
                    lemma_index_remove(filed, before, 0, 0);
                    let rest = match_ladder(self@, taker, limit, taker_id, remaining);
                    assert(fills@ + rest.fills =~= done + (seq![fill] + rest.fills));
                }
            }
        }
        proof {
            assert(fills@ + Seq::<Fill>::empty() =~= fills@);
        }
        (fills, remaining)
    }

    /// Brings `order` to rest: at the back of the level at its price, or in
    /// a new level where that price belongs.
    pub fn insert(&mut self, order: Order)
        requires
            old(self).wf(),
            order.price.is_some(),
            rests_at(order, old(self).side(), order.price.unwrap(), old(self).security_id()),
            ladder_below(old(self)@, order.sequence as nat),
            !ladder_holds(old(self)@, order.id),
        ensures
            final(self).wf(),
            final(self).side() == old(self).side(),
            final(self).security_id() == old(self).security_id(),
            final(self)@ == ladder_insert(old(self)@, old(self).side(), order),
    {
        let price = order.price.unwrap();
        let k = self.rank_of(price);
        proof {
            lemma_insert_wf(self@, self.side, self.security_id, order);
            lemma_insert_ids(self@, self.side, self.security_id, order);
            lemma_index_insert(self.index@, self@, self.side, self.security_id, order);
        }
        if k < self.levels.len() && self.levels[k].price() == price {
            self.levels[k].push_back(order);
        } else {
            let level = PriceLevel::new(price, order);
            self.levels.insert(k, level);
        }
        self.index.insert(order.id, price);
        assert(self@ =~= ladder_insert(old(self)@, self.side, order));
    }

    /// The index at which a level at `price` stands or belongs: the number
    /// of levels whose price has priority over it.
    pub fn rank_of(&self, price: u64) -> (k: usize)
        ensures
            k == rank(self@, self.side(), price),
            k <= self@.len(),
    {
        let mut k: usize = 0;
        while k < self.levels.len() && has_priority(self.side, self.levels[k].price(), price)
            invariant
                k <= self.levels@.len(),
                forall|i: int| 0 <= i < k ==> better(self.side, (#[trigger] self@[i]).price, price),
            decreases self.levels@.len() - k,
        {
            k = k + 1;
        }
        proof {
            lemma_rank_unique(self@, self.side, price, k as int);
        }
        k
    }

    /// The position of the order with identifier `id`, if it rests here.
    /// An identifier that does not rest here is turned away by the index
    /// without a look at the ladder.
    pub fn locate(&self, id: u64) -> (found: Option<(usize, usize)>)
        requires
            self.wf(),
        ensures
            match found {
                Some((i, p)) => holds_at(self@, i as int, p as int, id),
                None => !ladder_holds(self@, id),
            },
    {
        match self.index.get(&id) {
            None => None,
            Some(price) => {
                proof {
                    lemma_index_locate(self.index@, self@, self.side, self.security_id, id);
                }
                let k = self.rank_of(*price);
                match self.levels[k].position_of(id) {
                    Some(p) => Some((k, p)),
                    None => {
                        proof {
                            let p = choose|p: int| holds_at(self@, k as int, p, id);
                            assert(self@[k as int].orders[p].id == id);
                        }
                        None
                    },
                }
            },
        }
    }

    /// Takes the order at position `p` of level `i` out of the book. The
    /// orders behind it keep their relative order; a level left empty is
    /// dropped.
    pub fn remove_at(&mut self, i: usize, p: usize) -> (order: Order)
        requires
            old(self).wf(),
            occupied(old(self)@, i as int, p as int),
        ensures
            final(self).wf(),
            final(self).side() == old(self).side(),
            final(self).security_id() == old(self).security_id(),
            order == old(self)@[i as int].orders[p as int],
            final(self)@ == ladder_remove(old(self)@, i as int, p as int),
    {
        proof {
            lemma_remove_wf(self@, self.side, self.security_id, i as int, p as int);
            lemma_remove_ids(self@, i as int, p as int);
            lemma_index_remove(self.index@, self@, i as int, p as int);
        }
        let order = if self.levels[i].len() == 1 {
            let level = self.levels.remove(i);
            level.get(0)
        } else {
            self.levels[i].remove(p)
        };
        self.index.remove(&order.id);
        assert(self@ =~= ladder_remove(old(self)@, i as int, p as int));
        order
    }

    /// Leaves the order at position `p` of level `i` with `quantity` open
    /// and `status`, where it stands.
    pub fn reopen_at(&mut self, i: usize, p: usize, quantity: u64, status: OrderStatus)
        requires
            old(self).wf(),
            occupied(old(self)@, i as int, p as int),
            0 < quantity <= old(self)@[i as int].orders[p as int].current_quantity,
            status.is_open(),
        ensures
            final(self).wf(),
            final(self).side() == old(self).side(),
            final(self).security_id() == old(self).security_id(),
            final(self)@ == ladder_reopen(old(self)@, i as int, p as int, quantity, status),
    {
        proof {
            lemma_reopen_wf(
                self@,
                self.side,
                self.security_id,
                i as int,
                p as int,
                quantity,
                status,
            );
            lemma_reopen_ids(self@, i as int, p as int, quantity, status);
            lemma_index_reopen(self.index@, self@, i as int, p as int, quantity, status);
        }
        self.levels[i].set_open(p, quantity, status);
        assert(self@ =~= ladder_reopen(old(self)@, i as int, p as int, quantity, status));
    }

    /// Price and total open quantity of the best `count` levels, best first.
    pub fn depth(&self, count: usize) -> (levels: Vec<DepthLevel>)
        requires
            self.wf(),
        ensures
            levels@ == ladder_depth(self@, count as nat),
    {
        let mut out: Vec<DepthLevel> = Vec::new();
        let mut i: usize = 0;
        while i < count && i < self.levels.len()
            invariant
                self.inv(),
                i <= count,
                i <= self.levels@.len(),
                out@.len() == i,
                forall|j: int|
                    0 <= j < i ==> #[trigger] out@[j] == (DepthLevel {
                        price: self@[j].price,
                        quantity: self@[j].quantity() as u128,
                    }),
            decreases self.levels@.len() - i,
        {
            let level = &self.levels[i];
            out.push(DepthLevel { price: level.price(), quantity: level.aggregate_quantity() });
            i = i + 1;
        }
        assert(out@ =~= ladder_depth(self@, count as nat));
        out
    }
}

} // verus!
