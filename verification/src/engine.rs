//! The matching engine: one book per security and the counter from which
//! order identifiers and sequence numbers are drawn.

use crate::book::{
    lemma_below_weaken, lemma_cancel, lemma_execute, lemma_find, lemma_reduce, BookView, OrderBook,
};
use crate::ladder::{holds_at, ladder_depth, ladder_holds, occupied};
use crate::level::rests_at;
use crate::types::{
    BookDepth, CancelResult, DepthLevel, EngineError, MatchResult, MatchResultView, ModifyResult,
    ModifyResultView, NewOrder, Order, OrderSnapshot, OrderStatus, OrderType,
};
use std::collections::HashMap;
use vstd::prelude::*;

verus! {

/// The mathematical content of an engine: its books, and the next
/// sequence number it will give out.
pub struct EngineView {
    pub books: Map<u128, BookView>,
    pub next_sequence: nat,
}

impl EngineView {
    /// An engine with no books that has given out no number yet.
    pub open spec fn new() -> EngineView {
        EngineView { books: Map::empty(), next_sequence: 0 }
    }

    /// The book of `security_id`, or an empty one if none exists yet.
    pub open spec fn book(self, security_id: u128) -> BookView {
        if self.books.contains_key(security_id) {
            self.books[security_id]
        } else {
            BookView::empty(security_id)
        }
    }

    /// An order with identifier `order_id` rests in the book of
    /// `security_id`.
    pub open spec fn holds(self, security_id: u128, order_id: u64) -> bool {
        self.books.contains_key(security_id) && self.books[security_id].holds(order_id)
    }

    /// Every book is well formed and filed under its own security, and
    /// every number in use is below the next one to be given out.
    pub open spec fn wf(self) -> bool {
        &&& self.next_sequence <= u64::MAX
        &&& forall|s: u128| #[trigger]
            self.books.contains_key(s) ==> {
                &&& self.books[s].wf()
                &&& self.books[s].security_id == s
                &&& self.books[s].below(self.next_sequence)
            }
    }

    /// The counter can still give out a number.
    pub open spec fn has_capacity(self) -> bool {
        self.next_sequence < u64::MAX
    }

    /// The order that `request` becomes: the next number is both its
    /// identifier and its sequence number, and all of its quantity is open.
    pub open spec fn incoming(self, request: NewOrder) -> Order {
        Order {
            id: self.next_sequence as u64,
            security_id: request.security_id,
            side: request.side,
            order_type: request.order_type,
            price: request.limit(),
            initial_quantity: request.quantity,
            current_quantity: request.quantity,
            sequence: self.next_sequence as u64,
            status: OrderStatus::Active,
        }
    }

    /// The engine with the book of `security_id` replaced.
    pub open spec fn with_book(self, security_id: u128, book: BookView) -> EngineView {
        EngineView { books: self.books.insert(security_id, book), ..self }
    }

    /// The engine having given out one more number.
    pub open spec fn advanced(self) -> EngineView {
        EngineView { next_sequence: self.next_sequence + 1, ..self }
    }

    /// Submits `request`. An invalid request changes nothing. A valid one
    /// is numbered and executed against the book of its security, which is
    /// created if this is the first order for it.
    pub open spec fn submit(self, request: NewOrder) -> (
        EngineView,
        Result<MatchResultView, EngineError>,
    ) {
        if !request.is_valid() {
            (self, Err(EngineError::InvalidOrder))
        } else {
            let done = self.book(request.security_id).execute(self.incoming(request));
            (self.with_book(request.security_id, done.book).advanced(), Ok(done.result))
        }
    }

    /// Cancels the order `order_id` in the book of `security_id`, if it
    /// rests there, and reports the quantity that was still open.
    pub open spec fn cancel(self, security_id: u128, order_id: u64) -> (
        EngineView,
        Result<CancelResult, EngineError>,
    ) {
        if !self.holds(security_id, order_id) {
            (self, Err(EngineError::OrderNotFound))
        } else {
            let book = self.books[security_id];
            (
                self.with_book(security_id, book.cancel(order_id)),
                Ok(
                    CancelResult {
                        order_id,
                        cancelled_quantity: book.resting(order_id).unwrap().current_quantity,
                        status: OrderStatus::Cancelled,
                    },
                ),
            )
        }
    }

    /// The price an amendment asks for: the new one if given, else the
    /// order's own.
    pub open spec fn amended_price(order: Order, new_price: Option<u64>) -> u64 {
        match new_price {
            Some(price) => price,
            None => order.price.unwrap(),
        }
    }

    /// An amendment keeps the order's place in the queue when it leaves the
    /// price alone and does not raise the open quantity.
    pub open spec fn keeps_priority(
        order: Order,
        new_price: Option<u64>,
        new_quantity: u64,
    ) -> bool {
        Self::amended_price(order, new_price) == order.price.unwrap() && new_quantity
            <= order.current_quantity
    }

    /// The amendment takes a number from the counter: it is accepted and
    /// gives up the order's priority.
    pub open spec fn renumbers(
        self,
        security_id: u128,
        order_id: u64,
        new_price: Option<u64>,
        new_quantity: u64,
    ) -> bool {
        &&& new_quantity > 0
        &&& self.holds(security_id, order_id)
        &&& !Self::keeps_priority(
            self.books[security_id].resting(order_id).unwrap(),
            new_price,
            new_quantity,
        )
    }

    /// The order that re-enters matching after an amendment that gives up
    /// its priority: same identifier, new price and quantity, and the next
    /// sequence number.
    pub open spec fn resubmitted(
        self,
        order: Order,
        new_price: Option<u64>,
        new_quantity: u64,
    ) -> Order {
        Order {
            price: Some(Self::amended_price(order, new_price)),
            initial_quantity: new_quantity,
            current_quantity: new_quantity,
            sequence: self.next_sequence as u64,
            ..order
        }
    }

    /// Amends the order `order_id` in the book of `security_id`.
    ///
    /// A quantity of zero is refused, then an order that does not rest
    /// there. An amendment that keeps the price and does not raise the
    /// quantity cuts the order down where it stands. Any other takes the
    /// order out and runs it through matching again as a new arrival.
    pub open spec fn modify(
        self,
        security_id: u128,
        order_id: u64,
        new_price: Option<u64>,
        new_quantity: u64,
    ) -> (EngineView, Result<ModifyResultView, EngineError>) {
        if new_quantity == 0 {
            (self, Err(EngineError::InvalidOrder))
        } else if !self.holds(security_id, order_id) {
            (self, Err(EngineError::OrderNotFound))
        } else {
            let book = self.books[security_id];
            let order = book.resting(order_id).unwrap();
            let price = Self::amended_price(order, new_price);
            if Self::keeps_priority(order, new_price, new_quantity) {
                (
                    self.with_book(security_id, book.reduce(order_id, new_quantity)),
                    Ok(
                        ModifyResultView {
                            order: OrderSnapshot {
                                order_id,
                                price,
                                remaining_quantity: new_quantity,
                                status: order.status,
                            },
                            rematch: None,
                        },
                    ),
                )
            } else {
                let done = book.cancel(order_id).execute(
                    self.resubmitted(order, new_price, new_quantity),
                );
                (
                    self.with_book(security_id, done.book).advanced(),
                    Ok(
                        ModifyResultView {
                            order: OrderSnapshot {
                                order_id,
                                price,
                                remaining_quantity: match done.result.resting {
                                    Some(rest) => rest.remaining_quantity,
                                    None => 0,
                                },
                                status: done.result.status,
                            },
                            rematch: Some(done.result),
                        },
                    ),
                )
            }
        }
    }

    /// The aggregated depth of the book of `security_id`: bids, then asks,
    /// each the best `count` levels from best to worst.
    pub open spec fn depth(self, security_id: u128, count: nat) -> Result<
        (Seq<DepthLevel>, Seq<DepthLevel>),
        EngineError,
    > {
        if !self.books.contains_key(security_id) {
            Err(EngineError::UnknownSecurity)
        } else {
            Ok(
                (
                    ladder_depth(self.books[security_id].bids, count),
                    ladder_depth(self.books[security_id].asks, count),
                ),
            )
        }
    }
}

/// The outcome of a submit with its result taken to its view.
pub open spec fn match_outcome(result: Result<MatchResult, EngineError>) -> Result<
    MatchResultView,
    EngineError,
> {
    match result {
        Ok(r) => Ok(r@),
        Err(e) => Err(e),
    }
}

/// The outcome of a modify with its result taken to its view.
pub open spec fn modify_outcome(result: Result<ModifyResult, EngineError>) -> Result<
    ModifyResultView,
    EngineError,
> {
    match result {
        Ok(r) => Ok(r@),
        Err(e) => Err(e),
    }
}

/// The outcome of a depth query with its result taken to its view.
pub open spec fn depth_outcome(result: Result<BookDepth, EngineError>) -> Result<
    (Seq<DepthLevel>, Seq<DepthLevel>),
    EngineError,
> {
    match result {
        Ok(d) => Ok((d.bids@, d.asks@)),
        Err(e) => Err(e),
    }
}

/// Nothing at or above a bound on a book's identifiers rests in it.
pub proof fn lemma_below_excludes(book: BookView, bound: nat, id: u64)
    requires
        book.below(bound),
        id >= bound,
    ensures
        !book.holds(id),
{
    if ladder_holds(book.bids, id) {
        let (i, p) = choose|i: int, p: int| holds_at(book.bids, i, p, id);
        assert(occupied(book.bids, i, p));
    }
    if ladder_holds(book.asks, id) {
        let (i, p) = choose|i: int, p: int| holds_at(book.asks, i, p, id);
        assert(occupied(book.asks, i, p));
    }
}

/// A resting order is a live limit order of its book's security, carries
/// the identifier it is filed under, and is below any bound on the book.
pub proof fn lemma_resting(book: BookView, id: u64)
    requires
        book.wf(),
        book.holds(id),
    ensures
        ({
            let order = book.resting(id).unwrap();
            &&& order.id == id
            &&& order.is_live()
            &&& order.order_type == OrderType::Limit
            &&& order.price.is_some()
            &&& order.security_id == book.security_id
            &&& forall|bound: nat| #[trigger]
                book.below(bound) ==> order.id < bound && order.sequence < bound
        }),
{
    lemma_find(book, id);
    let place = book.find(id).unwrap();
    let levels = book.ladder(place.side);
    assert(occupied(levels, place.level, place.position));
    assert(levels[place.level].wf(place.side, book.security_id));
    assert(rests_at(
        levels[place.level].orders[place.position],
        place.side,
        levels[place.level].price,
        book.security_id,
    ));
}

/// An empty book is well formed and below every bound.
pub proof fn lemma_empty_book(security_id: u128, bound: nat)
    ensures
        BookView::empty(security_id).wf(),
        BookView::empty(security_id).below(bound),
        forall|id: u64| !#[trigger] BookView::empty(security_id).holds(id),
{
    let none = Seq::<crate::level::LevelView>::empty();
    assert forall|id: u64| !#[trigger] ladder_holds(none, id) by {
        if ladder_holds(none, id) {
            let (i, p) = choose|i: int, p: int| holds_at(none, i, p, id);
            assert(holds_at(none, i, p, id));
        }
    }
}

/// Submitting keeps the engine well formed.
pub proof fn lemma_submit_wf(engine: EngineView, request: NewOrder)
    requires
        engine.wf(),
        request.is_valid() ==> engine.has_capacity(),
    ensures
        engine.submit(request).0.wf(),
        request.is_valid() ==> engine.book(request.security_id).wf() && engine.book(
            request.security_id,
        ).admits(engine.incoming(request)),
{
    if request.is_valid() {
        let book = engine.book(request.security_id);
        let order = engine.incoming(request);
        lemma_empty_book(request.security_id, engine.next_sequence);
        lemma_below_excludes(book, engine.next_sequence, order.id);
        lemma_execute(book, order);
        lemma_replace_wf(engine, request.security_id, book.execute(order).book);
    }
}

/// Replacing one book by a well formed one, and giving out one number,
/// keeps the engine well formed if the new book is below the new bound.
pub proof fn lemma_replace_wf(engine: EngineView, security_id: u128, book: BookView)
    requires
        engine.wf(),
        engine.has_capacity(),
        book.wf(),
        book.security_id == security_id,
        book.below(engine.next_sequence + 1),
    ensures
        engine.with_book(security_id, book).advanced().wf(),
{
    let after = engine.with_book(security_id, book).advanced();
    assert forall|s: u128| #[trigger] after.books.contains_key(s) implies {
        &&& after.books[s].wf()
        &&& after.books[s].security_id == s
        &&& after.books[s].below(after.next_sequence)
    } by {
        if s != security_id {
            assert(engine.books.contains_key(s));
            lemma_below_weaken(engine.books[s].bids, engine.next_sequence, after.next_sequence);
            lemma_below_weaken(engine.books[s].asks, engine.next_sequence, after.next_sequence);
        }
    }
}

/// Cancelling keeps the engine well formed.
pub proof fn lemma_cancel_wf(engine: EngineView, security_id: u128, order_id: u64)
    requires
        engine.wf(),
    ensures
        engine.cancel(security_id, order_id).0.wf(),
{
    if engine.holds(security_id, order_id) {
        let book = engine.books[security_id];
        lemma_cancel(book, order_id);
        let after = engine.cancel(security_id, order_id).0;
        assert forall|s: u128| #[trigger] after.books.contains_key(s) implies {
            &&& after.books[s].wf()
            &&& after.books[s].security_id == s
            &&& after.books[s].below(after.next_sequence)
        } by {
            if s != security_id {
                assert(engine.books.contains_key(s));
            } else {
                assert(book.below(engine.next_sequence));
            }
        }
    }
}

/// Amending keeps the engine well formed.
pub proof fn lemma_modify_wf(
    engine: EngineView,
    security_id: u128,
    order_id: u64,
    new_price: Option<u64>,
    new_quantity: u64,
)
    requires
        engine.wf(),
        engine.renumbers(security_id, order_id, new_price, new_quantity)
            ==> engine.has_capacity(),
    ensures
        engine.modify(security_id, order_id, new_price, new_quantity).0.wf(),
        engine.renumbers(security_id, order_id, new_price, new_quantity) ==> {
            let book = engine.books[security_id];
            let order = book.resting(order_id).unwrap();
            &&& book.cancel(order_id).wf()
            &&& book.cancel(order_id).admits(
                engine.resubmitted(order, new_price, new_quantity),
            )
        },
{
    if new_quantity > 0 && engine.holds(security_id, order_id) {
        let book = engine.books[security_id];
        let order = book.resting(order_id).unwrap();
        lemma_resting(book, order_id);
        assert(book.below(engine.next_sequence));
        if EngineView::keeps_priority(order, new_price, new_quantity) {
            lemma_reduce(book, order_id, new_quantity);
            let after = engine.modify(security_id, order_id, new_price, new_quantity).0;
            assert forall|s: u128| #[trigger] after.books.contains_key(s) implies {
                &&& after.books[s].wf()
                &&& after.books[s].security_id == s
                &&& after.books[s].below(after.next_sequence)
            } by {
                if s != security_id {
                    assert(engine.books.contains_key(s));
                }
            }
        } else {
            let again = engine.resubmitted(order, new_price, new_quantity);
            lemma_cancel(book, order_id);
            let without = book.cancel(order_id);
            assert(without.below(engine.next_sequence));
            lemma_execute(without, again);
            lemma_replace_wf(engine, security_id, without.execute(again).book);
        }
    }
}

/// A central limit order book engine: submit, cancel, amend, and query
/// depth, for any number of securities.
#[derive(Debug)]
pub struct MatchingEngine {
    books: HashMap<u128, OrderBook>,
    sequence_counter: u64,
}

impl View for MatchingEngine {
    type V = EngineView;

    closed spec fn view(&self) -> EngineView {
        EngineView {
            books: Map::new(|s: u128| self.books@.contains_key(s), |s: u128| self.books@[s]@),
            next_sequence: self.sequence_counter as nat,
        }
    }
}

impl MatchingEngine {
    /// The engine's representation is sound and its content is a well
    /// formed engine.
    pub closed spec fn wf(&self) -> bool {
        &&& forall|s: u128| #[trigger] self.books@.contains_key(s) ==> self.books@[s].wf()
        &&& self@.wf()
    }

    /// What a well formed engine holds is a well formed model.
    pub proof fn lemma_view_wf(&self)
        requires
            self.wf(),
        ensures
            self@.wf(),
    {
    }

    /// An engine with no books.
    pub fn new() -> (engine: MatchingEngine)
        ensures
            engine.wf(),
            engine@ == EngineView::new(),
    {
        let engine = MatchingEngine { books: HashMap::new(), sequence_counter: 0 };
        assert(engine@.books =~= Map::<u128, BookView>::empty());
        engine
    }

    /// Whether the engine can still number an order. It cannot once
    /// `u64::MAX` numbers have been given out; from then on it accepts no
    /// order and no amendment that would need a number.
    pub fn has_capacity(&self) -> (yes: bool)
        ensures
            yes == self@.has_capacity(),
    {
        self.sequence_counter < u64::MAX
    }

    /// Submits an order: numbers it, matches it against the opposite side
    /// of its security's book, and rests what is left of a limit order.
    ///
    /// Fails with `InvalidOrder`, changing nothing, exactly when the
    /// request has zero quantity or is a limit order without a price.
    #[must_use]
    pub fn submit(&mut self, request: NewOrder) -> (result: Result<MatchResult, EngineError>)
        requires
            old(self).wf(),
            request.is_valid() ==> old(self)@.has_capacity(),
        ensures
            final(self).wf(),
            final(self)@ == old(self)@.submit(request).0,
            match_outcome(result) == old(self)@.submit(request).1,
            result.is_err() <==> !request.is_valid(),
            result matches Err(e) ==> e == EngineError::InvalidOrder && final(self)@ == old(self)@,
            result matches Ok(r) ==> {
                &&& r.order_id == old(self)@.next_sequence
                &&& final(self)@.next_sequence == old(self)@.next_sequence + 1
                &&& final(self)@.books.contains_key(request.security_id)
                &&& final(self)@.book(request.security_id).uncrossed()
            },
    {
        let limit = match request.order_type {
            OrderType::Limit => request.price,
            OrderType::Market => None,
        };
        if request.quantity == 0 || (matches!(request.order_type, OrderType::Limit)
            && limit.is_none()) {
            return Err(EngineError::InvalidOrder);
        }
        let number = self.sequence_counter;
        let order = Order {
            id: number,
            security_id: request.security_id,
            side: request.side,
            order_type: request.order_type,
            price: limit,
            initial_quantity: request.quantity,
            current_quantity: request.quantity,
            sequence: number,
            status: OrderStatus::Active,
        };
        proof {
            lemma_submit_wf(self@, request);
        }
        let mut book = match self.books.remove(&request.security_id) {
            Some(book) => book,
            None => OrderBook::new(request.security_id),
        };
        let result = book.execute(order);
        self.books.insert(request.security_id, book);
        self.sequence_counter = number + 1;
        proof {
            assert(self@.books =~= old(self)@.submit(request).0.books);
        }
        Ok(result)
    }

    /// Cancels a resting order and reports the quantity that was still
    /// open.
    ///
    /// Fails with `OrderNotFound`, changing nothing, exactly when no order
    /// with that identifier rests in the book of that security.
    pub fn cancel(&mut self, security_id: u128, order_id: u64) -> (result: Result<
        CancelResult,
        EngineError,
    >)
        requires
            old(self).wf(),
        ensures
            final(self).wf(),
            final(self)@ == old(self)@.cancel(security_id, order_id).0,
            result == old(self)@.cancel(security_id, order_id).1,
            result.is_ok() <==> old(self)@.holds(security_id, order_id),
            result matches Err(e) ==> e == EngineError::OrderNotFound && final(self)@ == old(
                self,
            )@,
            result matches Ok(r) ==> {
                &&& r.order_id == order_id
                &&& r.status == OrderStatus::Cancelled
                &&& !final(self)@.holds(security_id, order_id)
            },
    {
        proof {
            lemma_cancel_wf(self@, security_id, order_id);
            if self@.holds(security_id, order_id) {
                lemma_cancel(self@.books[security_id], order_id);
            }
        }
        let mut book = match self.books.remove(&security_id) {
            Some(book) => book,
            None => {
                assert(self.books@ =~= old(self).books@);
                return Err(EngineError::OrderNotFound);
            },
        };
        proof {
            lemma_find(book@, order_id);
        }
        let removed = book.cancel(order_id);
        self.books.insert(security_id, book);
        match removed {
            Some(order) => {
                proof {
                    assert(self@.books =~= old(self)@.cancel(security_id, order_id).0.books);
                }
                Ok(
                    CancelResult {
                        order_id,
                        cancelled_quantity: order.current_quantity,
                        status: OrderStatus::Cancelled,
                    },
                )
            },
            None => {
                proof {
                    assert(self@.books =~= old(self)@.books);
                }
                Err(EngineError::OrderNotFound)
            },
        }
    }

    /// Amends a resting order.
    ///
    /// Fails with `InvalidOrder` when the new quantity is zero, and with
    /// `OrderNotFound` when no order with that identifier rests in the
    /// book of that security; either way nothing changes. `new_price` of
    /// `None` keeps the order's price. With the price unchanged and the
    /// quantity not above what is open, the order is cut down in place and
    /// keeps its priority. Otherwise it is withdrawn and submitted anew
    /// under a fresh sequence number, and may trade at once.
    pub fn modify(
        &mut self,
        security_id: u128,
        order_id: u64,
        new_price: Option<u64>,
        new_quantity: u64,
    ) -> (result: Result<ModifyResult, EngineError>)
        requires
            old(self).wf(),
            old(self)@.renumbers(security_id, order_id, new_price, new_quantity) ==> old(
                self,
            )@.has_capacity(),
        ensures
            final(self).wf(),
            final(self)@ == old(self)@.modify(security_id, order_id, new_price, new_quantity).0,
            modify_outcome(result) == old(self)@.modify(
                security_id,
                order_id,
                new_price,
                new_quantity,
            ).1,
            result.is_ok() <==> new_quantity > 0 && old(self)@.holds(security_id, order_id),
            result matches Err(e) ==> final(self)@ == old(self)@ && e == (if new_quantity == 0 {
                EngineError::InvalidOrder
            } else {
                EngineError::OrderNotFound
            }),
            result matches Ok(r) ==> r.order.order_id == order_id && r.rematch.is_some() == old(
                self,
            )@.renumbers(security_id, order_id, new_price, new_quantity),
    {
        if new_quantity == 0 {
            return Err(EngineError::InvalidOrder);
        }
        proof {
            lemma_modify_wf(self@, security_id, order_id, new_price, new_quantity);
        }
        let mut book = match self.books.remove(&security_id) {
            Some(book) => book,
            None => {
                assert(self.books@ =~= old(self).books@);
                return Err(EngineError::OrderNotFound);
            },
        };
        proof {
            lemma_find(book@, order_id);
        }
        let order = match book.find(order_id) {
            Some(order) => order,
            None => {
                self.books.insert(security_id, book);
                proof {
                    assert(self@.books =~= old(self)@.books);
                }
                return Err(EngineError::OrderNotFound);
            },
        };
        proof {
            book.lemma_view_wf();
            lemma_resting(book@, order_id);
        }
        let old_price = order.price.unwrap();
        let price = match new_price {
            Some(price) => price,
            None => old_price,
        };
        if price == old_price && new_quantity <= order.current_quantity {
            book.reduce(order_id, new_quantity);
            self.books.insert(security_id, book);
            proof {
                assert(self@.books =~= old(self)@.modify(
                    security_id,
                    order_id,
                    new_price,
                    new_quantity,
                ).0.books);
            }
            Ok(
                ModifyResult {
                    order: OrderSnapshot {
                        order_id,
                        price,
                        remaining_quantity: new_quantity,
                        status: order.status,
                    },
                    rematch: None,
                },
            )
        } else {
            let number = self.sequence_counter;
            let again = Order {
                price: Some(price),
                initial_quantity: new_quantity,
                current_quantity: new_quantity,
                sequence: number,
                ..order
            };
            book.cancel(order_id);
            let rematch = book.execute(again);
            self.books.insert(security_id, book);
            self.sequence_counter = number + 1;
            proof {
                assert(self@.books =~= old(self)@.modify(
                    security_id,
                    order_id,
                    new_price,
                    new_quantity,
                ).0.books);
            }
            let remaining_quantity = match rematch.resting {
                Some(rest) => rest.remaining_quantity,
                None => 0,
            };
            let status = rematch.status;
            Ok(
                ModifyResult {
                    order: OrderSnapshot { order_id, price, remaining_quantity, status },
                    rematch: Some(rematch),
                },
            )
        }
    }

    /// Aggregated depth of one security's book: for each side, price and
    /// total open quantity of the best `level_count` levels, best first.
    ///
    /// Fails with `UnknownSecurity` exactly when no order was ever accepted
    /// for that security. A `level_count` of zero gives two empty sides.
    pub fn depth(&self, security_id: u128, level_count: usize) -> (result: Result<
        BookDepth,
        EngineError,
    >)
        requires
            self.wf(),
        ensures
            depth_outcome(result) == self@.depth(security_id, level_count as nat),
            result.is_ok() <==> self@.books.contains_key(security_id),
            result matches Err(e) ==> e == EngineError::UnknownSecurity,
            result matches Ok(d) ==> d.bids@.len() <= level_count && d.asks@.len() <= level_count,
    {
        match self.books.get(&security_id) {
            Some(book) => Ok(book.depth(level_count)),
            None => Err(EngineError::UnknownSecurity),
        }
    }
}

} // verus!
