//! The book of one security: a ladder of bids and a ladder of asks, and how
//! an order is executed against them.

use crate::ladder::{
    better, crosses, fills_quantity, holds_at, ladder_below, ladder_depth, ladder_distinct,
    ladder_find, ladder_holds, ladder_insert, ladder_quantity, ladder_remove, ladder_reopen,
    ladder_wf, lemma_insert_ids, lemma_insert_wf, lemma_match, lemma_remove_ids, lemma_remove_wf,
    lemma_reopen_ids, lemma_reopen_wf, match_ladder, occupied,
};
use crate::level::{rests_at, LevelView};
use crate::side::BookSide;
use crate::types::{
    BookDepth, MatchResult, MatchResultView, Order, OrderStatus, OrderType, RestingOrder, Side,
};
use vstd::prelude::*;

verus! {

/// The mathematical content of a book: both ladders, best price first.
pub struct BookView {
    pub security_id: u128,
    pub bids: Seq<LevelView>,
    pub asks: Seq<LevelView>,
}

/// Where an order rests in a book.
pub struct Place {
    pub side: Side,
    pub level: int,
    pub position: int,
}

/// A book after an order has been executed against it, and what came of
/// the order.
pub struct Execution {
    pub book: BookView,
    pub result: MatchResultView,
}

impl BookView {
    /// The book of `security_id` with nothing resting in it.
    pub open spec fn empty(security_id: u128) -> BookView {
        BookView { security_id, bids: Seq::empty(), asks: Seq::empty() }
    }

    /// The ladder of one side.
    pub open spec fn ladder(self, side: Side) -> Seq<LevelView> {
        match side {
            Side::Buy => self.bids,
            Side::Sell => self.asks,
        }
    }

    /// The book with the ladder of `side` replaced.
    pub open spec fn with_ladder(self, side: Side, levels: Seq<LevelView>) -> BookView {
        match side {
            Side::Buy => BookView { bids: levels, ..self },
            Side::Sell => BookView { asks: levels, ..self },
        }
    }

    /// An order with identifier `id` rests in the book.
    pub open spec fn holds(self, id: u64) -> bool {
        ladder_holds(self.bids, id) || ladder_holds(self.asks, id)
    }

    /// The best bid is strictly below the best ask.
    pub open spec fn uncrossed(self) -> bool {
        self.bids.len() > 0 && self.asks.len() > 0 ==> self.bids[0].price < self.asks[0].price
    }

    /// No identifier rests at two places.
    pub open spec fn distinct(self) -> bool {
        &&& ladder_distinct(self.bids)
        &&& ladder_distinct(self.asks)
        &&& forall|id: u64| !(#[trigger] ladder_holds(self.bids, id) && ladder_holds(self.asks, id))
    }

    /// Every identifier and sequence number in the book is below `bound`.
    pub open spec fn below(self, bound: nat) -> bool {
        ladder_below(self.bids, bound) && ladder_below(self.asks, bound)
    }

    /// A book is well formed when both ladders are, it is not crossed, and
    /// no identifier rests in it twice.
    pub open spec fn wf(self) -> bool {
        &&& ladder_wf(self.bids, Side::Buy, self.security_id)
        &&& ladder_wf(self.asks, Side::Sell, self.security_id)
        &&& self.uncrossed()
        &&& self.distinct()
    }

    /// Total open quantity resting in the book.
    pub open spec fn open_quantity(self) -> nat {
        ladder_quantity(self.bids) + ladder_quantity(self.asks)
    }

    /// Where the order with identifier `id` rests, if it does.
    pub open spec fn find(self, id: u64) -> Option<Place> {
        match ladder_find(self.bids, id) {
            Some((level, position)) => Some(Place { side: Side::Buy, level, position }),
            None => match ladder_find(self.asks, id) {
                Some((level, position)) => Some(Place { side: Side::Sell, level, position }),
                None => None,
            },
        }
    }

    /// The order resting at `place`.
    pub open spec fn order_at(self, place: Place) -> Order {
        self.ladder(place.side)[place.level].orders[place.position]
    }

    /// The resting order with identifier `id`, if there is one.
    pub open spec fn resting(self, id: u64) -> Option<Order> {
        match self.find(id) {
            Some(place) => Some(self.order_at(place)),
            None => None,
        }
    }

    /// Runs `order` through matching and, if it is a limit order with
    /// quantity left, brings it to rest.
    ///
    /// The order trades against the opposite ladder as [`match_ladder`]
    /// says. A limit order with quantity left then joins the back of the
    /// level at its price on its own side; it is partially filled if it
    /// traded, and otherwise keeps the status it came with. Any other order
    /// is done: filled if it traded, cancelled if it found nothing to trade
    /// with.
    pub open spec fn execute(self, order: Order) -> Execution {
        let out = match_ladder(
            self.ladder(order.side.opposite()),
            order.side,
            order.limit(),
            order.id,
            order.current_quantity,
        );
        let traded = out.fills.len() > 0;
        let matched = self.with_ladder(order.side.opposite(), out.levels);
        if out.remaining > 0 && order.order_type == OrderType::Limit {
            let status = if traded {
                OrderStatus::PartiallyFilled
            } else {
                order.status
            };
            let rested = Order { current_quantity: out.remaining, status, ..order };
            Execution {
                book: matched.with_ladder(
                    order.side,
                    ladder_insert(self.ladder(order.side), order.side, rested),
                ),
                result: MatchResultView {
                    order_id: order.id,
                    status,
                    fills: out.fills,
                    resting: Some(
                        RestingOrder {
                            order_id: order.id,
                            remaining_quantity: out.remaining,
                            price: order.price.unwrap(),
                        },
                    ),
                },
            }
        } else {
            Execution {
                book: matched,
                result: MatchResultView {
                    order_id: order.id,
                    status: if traded {
                        OrderStatus::Filled
                    } else {
                        OrderStatus::Cancelled
                    },
                    fills: out.fills,
                    resting: None,
                },
            }
        }
    }

    /// The quantity of `order` that execution lets go unfilled without
    /// resting it: the remainder of a market order.
    pub open spec fn discarded(self, order: Order) -> nat {
        let result = self.execute(order).result;
        if result.resting.is_some() {
            0
        } else {
            (order.current_quantity - fills_quantity(result.fills)) as nat
        }
    }

    /// The book without the order with identifier `id`.
    pub open spec fn cancel(self, id: u64) -> BookView {
        match self.find(id) {
            Some(place) => self.with_ladder(
                place.side,
                ladder_remove(self.ladder(place.side), place.level, place.position),
            ),
            None => self,
        }
    }

    /// The book with the order with identifier `id` cut down to `quantity`
    /// where it stands.
    pub open spec fn reduce(self, id: u64, quantity: u64) -> BookView {
        match self.find(id) {
            Some(place) => self.with_ladder(
                place.side,
                ladder_reopen(
                    self.ladder(place.side),
                    place.level,
                    place.position,
                    quantity,
                    self.order_at(place).status,
                ),
            ),
            None => self,
        }
    }

    /// What must hold for `order` to be executed against this book: it is
    /// live, belongs to this security, is not already resting here, and is
    /// younger than everything that is.
    pub open spec fn admits(self, order: Order) -> bool {
        &&& order.is_live()
        &&& order.security_id == self.security_id
        &&& order.id <= order.sequence
        &&& !self.holds(order.id)
        &&& self.below(order.sequence as nat)
    }
}

/// In a ladder without duplicates, an identifier found at a position is
/// found nowhere else.
pub proof fn lemma_find_unique(levels: Seq<LevelView>, id: u64, i: int, p: int)
    requires
        ladder_distinct(levels),
        holds_at(levels, i, p, id),
    ensures
        ladder_find(levels, id) == Some((i, p)),
{
    let (a, b) = choose|a: int, b: int| holds_at(levels, a, b, id);
    assert(holds_at(levels, a, b, id));
}

/// The place `find` reports holds the order asked for, and nothing is found
/// exactly when nothing with that identifier rests in the book.
pub proof fn lemma_find(book: BookView, id: u64)
    ensures
        book.find(id).is_some() <==> book.holds(id),
        book.find(id).is_some() ==> {
            let place = book.find(id).unwrap();
            &&& holds_at(book.ladder(place.side), place.level, place.position, id)
            &&& book.order_at(place).id == id
        },
{
    if ladder_holds(book.bids, id) {
        let (a, b) = choose|a: int, b: int| holds_at(book.bids, a, b, id);
        assert(holds_at(book.bids, a, b, id));
    } else if ladder_holds(book.asks, id) {
        let (a, b) = choose|a: int, b: int| holds_at(book.asks, a, b, id);
        assert(holds_at(book.asks, a, b, id));
    }
}

/// Executing an order keeps the book well formed, and in particular
/// uncrossed; it conserves quantity; and it keeps every identifier and
/// sequence number below the next one to be given out.
pub proof fn lemma_execute(book: BookView, order: Order)
    requires
        book.wf(),
        book.admits(order),
    ensures
        book.execute(order).book.wf(),
        book.execute(order).book.security_id == book.security_id,
        book.execute(order).book.below((order.sequence + 1) as nat),
        book.execute(order).book.open_quantity() + 2 * fills_quantity(
            book.execute(order).result.fills,
        ) + book.discarded(order) == book.open_quantity() + order.current_quantity,
        forall|x: u64| #[trigger]
            book.execute(order).book.holds(x) ==> book.holds(x) || x == order.id,
        book.execute(order).book.holds(order.id) <==> book.execute(order).result.resting.is_some(),
{
    let side = order.side;
    let other = side.opposite();
    let own = book.ladder(side);
    let opp = book.ladder(other);
    let out = match_ladder(opp, side, order.limit(), order.id, order.current_quantity);
    let after = book.execute(order).book;
    let bound = (order.sequence + 1) as nat;
    lemma_match(
        opp,
        other,
        book.security_id,
        side,
        order.limit(),
        order.id,
        order.current_quantity,
    );
    assert(ladder_below(opp, order.sequence as nat));
    assert(ladder_below(out.levels, order.sequence as nat));
    lemma_below_weaken(out.levels, order.sequence as nat, bound);
    lemma_below_weaken(own, order.sequence as nat, bound);
    assert(!ladder_holds(out.levels, order.id));
    if out.remaining > 0 && order.order_type == OrderType::Limit {
        let traded = out.fills.len() > 0;
        let status = if traded {
            OrderStatus::PartiallyFilled
        } else {
            order.status
        };
        let rested = Order { current_quantity: out.remaining, status, ..order };
        let price = order.price.unwrap();
        assert(rests_at(rested, side, price, book.security_id));
        lemma_insert_wf(own, side, book.security_id, rested);
        lemma_insert_ids(own, side, book.security_id, rested);
        let grown = ladder_insert(own, side, rested);
        assert(ladder_below(grown, bound));
        assert(after.ladder(side) == grown);
        assert(after.ladder(other) == out.levels);
        assert(after.uncrossed()) by {
            if grown.len() > 0 && out.levels.len() > 0 {
                assert(!crosses(side, order.limit(), out.levels[0].price));
                assert(!better(other, out.levels[0].price, opp[0].price));
            }
        }
        assert(after.distinct()) by {
            assert forall|id: u64|
                !(#[trigger] ladder_holds(after.bids, id) && ladder_holds(after.asks, id)) by {
                if ladder_holds(after.bids, id) && ladder_holds(after.asks, id) {
                    assert(ladder_holds(grown, id));
                    assert(ladder_holds(out.levels, id));
                    assert(ladder_holds(opp, id));
                    assert(ladder_holds(own, id) || id == order.id);
                    assert(ladder_holds(book.bids, id));
                }
            }
        }
        assert(ladder_holds(grown, order.id));
    } else {
        assert(after.ladder(side) == own);
        assert(after.ladder(other) == out.levels);
        assert(after.uncrossed()) by {
            if own.len() > 0 && out.levels.len() > 0 {
                assert(!better(other, out.levels[0].price, opp[0].price));
            }
        }
        assert(after.distinct()) by {
            assert forall|id: u64|
                !(#[trigger] ladder_holds(after.bids, id) && ladder_holds(after.asks, id)) by {
                if ladder_holds(after.bids, id) && ladder_holds(after.asks, id) {
                    assert(ladder_holds(out.levels, id));
                    assert(ladder_holds(opp, id));
                    assert(ladder_holds(book.bids, id));
                }
            }
        }
        assert(!ladder_holds(own, order.id));
    }
}

/// A bound on a ladder's identifiers and sequence numbers may be raised.
pub proof fn lemma_below_weaken(levels: Seq<LevelView>, low: nat, high: nat)
    requires
        ladder_below(levels, low),
        low <= high,
    ensures
        ladder_below(levels, high),
{
    assert forall|i: int, p: int| #[trigger] occupied(levels, i, p) implies levels[i].orders[p].id
        < high && levels[i].orders[p].sequence < high by {}
}


/// Cancelling a resting order keeps the book well formed, takes exactly
/// that order out, and with it exactly its open quantity.
pub proof fn lemma_cancel(book: BookView, id: u64)
    requires
        book.wf(),
        book.holds(id),
    ensures
        book.cancel(id).wf(),
        book.cancel(id).security_id == book.security_id,
        !book.cancel(id).holds(id),
        forall|x: u64| x != id ==> (#[trigger] book.cancel(id).holds(x) <==> book.holds(x)),
        book.cancel(id).open_quantity() + book.resting(id).unwrap().current_quantity
            == book.open_quantity(),
        forall|bound: nat| #[trigger] book.below(bound) ==> book.cancel(id).below(bound),
{
    lemma_find(book, id);
    let place = book.find(id).unwrap();
    let levels = book.ladder(place.side);
    let after = book.cancel(id);
    let kept = ladder_remove(levels, place.level, place.position);
    lemma_remove_wf(levels, place.side, book.security_id, place.level, place.position);
    lemma_remove_ids(levels, place.level, place.position);
    assert(after.ladder(place.side) == kept);
    assert(after.ladder(place.side.opposite()) == book.ladder(place.side.opposite()));
    assert(!ladder_holds(book.ladder(place.side.opposite()), id)) by {
        assert(ladder_holds(levels, id));
    }
    assert(after.uncrossed()) by {
        if after.bids.len() > 0 && after.asks.len() > 0 {
            assert(!better(place.side, kept[0].price, levels[0].price));
        }
    }
    assert(after.distinct()) by {
        assert forall|x: u64|
            !(#[trigger] ladder_holds(after.bids, x) && ladder_holds(after.asks, x)) by {
            if ladder_holds(after.bids, x) && ladder_holds(after.asks, x) {
                assert(ladder_holds(book.bids, x));
                assert(ladder_holds(book.asks, x));
            }
        }
    }
    assert forall|x: u64| x != id implies (#[trigger] after.holds(x) <==> book.holds(x)) by {
        if ladder_holds(levels, x) {
            assert(ladder_holds(kept, x));
        }
        if ladder_holds(kept, x) {
            assert(ladder_holds(levels, x));
        }
    }
    assert forall|bound: nat| #[trigger] book.below(bound) implies after.below(bound) by {
        assert(ladder_below(levels, bound));
        assert(ladder_below(kept, bound));
    }
}

/// Cutting a resting order down where it stands keeps the book well
/// formed, moves no order, and lowers the open quantity by the cut.
pub proof fn lemma_reduce(book: BookView, id: u64, quantity: u64)
    requires
        book.wf(),
        book.holds(id),
        0 < quantity <= book.resting(id).unwrap().current_quantity,
    ensures
        book.reduce(id, quantity).wf(),
        book.reduce(id, quantity).security_id == book.security_id,
        forall|x: u64| #[trigger] book.reduce(id, quantity).holds(x) <==> book.holds(x),
        book.reduce(id, quantity).open_quantity() + book.resting(id).unwrap().current_quantity
            == book.open_quantity() + quantity,
        forall|bound: nat| #[trigger] book.below(bound) ==> book.reduce(id, quantity).below(bound),
{
    lemma_find(book, id);
    let place = book.find(id).unwrap();
    let levels = book.ladder(place.side);
    let after = book.reduce(id, quantity);
    let status = book.order_at(place).status;
    let kept = ladder_reopen(levels, place.level, place.position, quantity, status);
    assert(levels[place.level].wf(place.side, book.security_id));
    assert(rests_at(book.order_at(place), place.side, levels[place.level].price, book.security_id));
    lemma_reopen_wf(
        levels,
        place.side,
        book.security_id,
        place.level,
        place.position,
        quantity,
        status,
    );
    lemma_reopen_ids(levels, place.level, place.position, quantity, status);
    assert(after.ladder(place.side) == kept);
    assert(after.ladder(place.side.opposite()) == book.ladder(place.side.opposite()));
    assert(after.uncrossed()) by {
        if after.bids.len() > 0 && after.asks.len() > 0 {
            assert(kept[0].price == levels[0].price);
        }
    }
    assert(after.distinct()) by {
        assert forall|x: u64|
            !(#[trigger] ladder_holds(after.bids, x) && ladder_holds(after.asks, x)) by {
            if ladder_holds(after.bids, x) && ladder_holds(after.asks, x) {
                assert(ladder_holds(book.bids, x));
                assert(ladder_holds(book.asks, x));
            }
        }
    }
    assert forall|x: u64| #[trigger] after.holds(x) <==> book.holds(x) by {
        assert(ladder_holds(kept, x) <==> ladder_holds(levels, x));
    }
    assert forall|bound: nat| #[trigger] book.below(bound) implies after.below(bound) by {
        assert(ladder_below(levels, bound));
        assert(ladder_below(kept, bound));
    }
}

/// The resting orders of one security: bids and asks, each in price-time
/// priority.
#[derive(Debug)]
pub struct OrderBook {
    security_id: u128,
    bids: BookSide,
    asks: BookSide,
}

impl View for OrderBook {
    type V = BookView;

    closed spec fn view(&self) -> BookView {
        BookView { security_id: self.security_id, bids: self.bids@, asks: self.asks@ }
    }
}

impl OrderBook {
    /// The book's representation is sound and its content is a well formed
    /// book.
    pub closed spec fn wf(&self) -> bool {
        &&& self.bids.wf()
        &&& self.asks.wf()
        &&& self.bids.side() == Side::Buy
        &&& self.asks.side() == Side::Sell
        &&& self.bids.security_id() == self.security_id
        &&& self.asks.security_id() == self.security_id
        &&& self@.wf()
    }

    /// What a well formed book holds is a well formed model.
    pub proof fn lemma_view_wf(&self)
        requires
            self.wf(),
        ensures
            self@.wf(),
    {
    }

    /// An empty book for `security_id`.
    pub fn new(security_id: u128) -> (book: OrderBook)
        ensures
            book.wf(),
            book@ == BookView::empty(security_id),
    {
        let book = OrderBook {
            security_id,
            bids: BookSide::new(Side::Buy, security_id),
            asks: BookSide::new(Side::Sell, security_id),
        };
        proof {
            assert forall|id: u64| !ladder_holds(Seq::<LevelView>::empty(), id) by {
                if ladder_holds(Seq::<LevelView>::empty(), id) {
                    let (i, p) = choose|i: int, p: int|
                        holds_at(Seq::<LevelView>::empty(), i, p, id);
                    assert(holds_at(Seq::<LevelView>::empty(), i, p, id));
                }
            }
        }
        book
    }

    /// The security this book belongs to.
    pub fn security_id(&self) -> (id: u128)
        ensures
            id == self@.security_id,
    {
        self.security_id
    }

    /// The best bid price, if any bid rests.
    pub fn best_bid(&self) -> (best: Option<u64>)
        ensures
            best == (if self@.bids.len() > 0 {
                Some(self@.bids[0].price)
            } else {
                None
            }),
    {
        self.bids.best_price()
    }

    /// The best ask price, if any ask rests.
    pub fn best_ask(&self) -> (best: Option<u64>)
        ensures
            best == (if self@.asks.len() > 0 {
                Some(self@.asks[0].price)
            } else {
                None
            }),
    {
        self.asks.best_price()
    }

    /// Runs `order` through matching against the opposite side and, if it
    /// is a limit order with quantity left, brings it to rest on its own.
    pub fn execute(&mut self, order: Order) -> (result: MatchResult)
        requires
            old(self).wf(),
            old(self)@.admits(order),
        ensures
            final(self).wf(),
            final(self)@ == old(self)@.execute(order).book,
            result@ == old(self)@.execute(order).result,
    {
        proof {
            lemma_execute(self@, order);
            lemma_match(
                self@.ladder(order.side.opposite()),
                order.side.opposite(),
                self.security_id,
                order.side,
                order.limit(),
                order.id,
                order.current_quantity,
            );
        }
        let limit = match order.order_type {
            OrderType::Limit => order.price,
            OrderType::Market => None,
        };
        let (fills, remaining) = match order.side {
            Side::Buy => self.asks.match_incoming(limit, order.id, order.current_quantity),
            Side::Sell => self.bids.match_incoming(limit, order.id, order.current_quantity),
        };
        let traded = fills.len() > 0;
        let rests = remaining > 0 && matches!(order.order_type, OrderType::Limit);
        if rests {
            let status = if traded {
                OrderStatus::PartiallyFilled
            } else {
                order.status
            };
            let rested = Order { current_quantity: remaining, status, ..order };
            match order.side {
                Side::Buy => self.bids.insert(rested),
                Side::Sell => self.asks.insert(rested),
            }
            MatchResult {
                order_id: order.id,
                status,
                fills,
                resting: Some(
                    RestingOrder {
                        order_id: order.id,
                        remaining_quantity: remaining,
                        price: order.price.unwrap(),
                    },
                ),
            }
        } else {
            let status = if traded {
                OrderStatus::Filled
            } else {
                OrderStatus::Cancelled
            };
            MatchResult { order_id: order.id, status, fills, resting: None }
        }
    }

    /// Where the order with identifier `id` rests, if it does.
    fn locate(&self, id: u64) -> (found: Option<(Side, usize, usize)>)
        requires
            self.wf(),
        ensures
            match found {
                Some((side, i, p)) => self@.find(id) == Some(
                    Place { side, level: i as int, position: p as int },
                ) && holds_at(self@.ladder(side), i as int, p as int, id),
                None => self@.find(id).is_none(),
            },
    {
        match self.bids.locate(id) {
            Some((i, p)) => {
                proof {
                    lemma_find_unique(self@.bids, id, i as int, p as int);
                }
                Some((Side::Buy, i, p))
            },
            None => match self.asks.locate(id) {
                Some((i, p)) => {
                    proof {
                        lemma_find_unique(self@.asks, id, i as int, p as int);
                    }
                    Some((Side::Sell, i, p))
                },
                None => None,
            },
        }
    }

    /// The resting order with identifier `id`, if there is one.
    pub fn find(&self, id: u64) -> (found: Option<Order>)
        requires
            self.wf(),
        ensures
            found == self@.resting(id),
    {
        match self.locate(id) {
            Some((side, i, p)) => Some(
                match side {
                    Side::Buy => self.bids.order_at(i, p),
                    Side::Sell => self.asks.order_at(i, p),
                },
            ),
            None => None,
        }
    }

    /// Takes the order with identifier `id` out of the book and returns it
    /// as it stood. Without such an order the book is left as it is.
    pub fn cancel(&mut self, id: u64) -> (removed: Option<Order>)
        requires
            old(self).wf(),
        ensures
            final(self).wf(),
            removed == old(self)@.resting(id),
            final(self)@ == old(self)@.cancel(id),
    {
        match self.locate(id) {
            Some((side, i, p)) => {
                proof {
                    lemma_find(self@, id);
                    lemma_cancel(self@, id);
                }
                let order = match side {
                    Side::Buy => self.bids.remove_at(i, p),
                    Side::Sell => self.asks.remove_at(i, p),
                };
                Some(order)
            },
            None => None,
        }
    }

    /// Cuts the order with identifier `id` down to `quantity` where it
    /// stands, keeping its place in the queue.
    pub fn reduce(&mut self, id: u64, quantity: u64)
        requires
            old(self).wf(),
            old(self)@.holds(id),
            0 < quantity <= old(self)@.resting(id).unwrap().current_quantity,
        ensures
            final(self).wf(),
            final(self)@ == old(self)@.reduce(id, quantity),
    {
        proof {
            lemma_find(self@, id);
            lemma_reduce(self@, id, quantity);
        }
        match self.locate(id) {
            Some((side, i, p)) => {
                match side {
                    Side::Buy => {
                        let status = self.bids.order_at(i, p).status;
                        assert(self@.bids[i as int].wf(Side::Buy, self.security_id));
                        self.bids.reopen_at(i, p, quantity, status);
                    },
                    Side::Sell => {
                        let status = self.asks.order_at(i, p).status;
                        assert(self@.asks[i as int].wf(Side::Sell, self.security_id));
                        self.asks.reopen_at(i, p, quantity, status);
                    },
                }
            },
            None => {},
        }
    }

    /// Aggregated depth: for each side, price and total open quantity of
    /// the best `count` levels, best first.
    pub fn depth(&self, count: usize) -> (depth: BookDepth)
        requires
            self.wf(),
        ensures
            depth.bids@ == ladder_depth(self@.bids, count as nat),
            depth.asks@ == ladder_depth(self@.asks, count as nat),
    {
        BookDepth { bids: self.bids.depth(count), asks: self.asks.depth(count) }
    }
}

} // verus!
