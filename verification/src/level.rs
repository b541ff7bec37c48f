//! One price level: the orders resting at a single price, oldest first.

use crate::sums::{
    lemma_sum_bound, lemma_sum_one, lemma_sum_push, lemma_sum_remove, lemma_sum_update, sum_of,
};
use crate::types::{Order, OrderStatus, OrderType, Side};
use std::collections::VecDeque;
use vstd::prelude::*;

verus! {

/// The measure summed to obtain open quantity: an order's `current_quantity`.
pub open spec fn open_quantity() -> spec_fn(Order) -> nat {
    |o: Order| o.current_quantity as nat
}

/// The open quantity of a queue of orders.
pub open spec fn orders_quantity(orders: Seq<Order>) -> nat {
    sum_of(orders, open_quantity())
}

/// What must hold of an order for it to rest at `price` on `side` of the
/// book of `security_id`.
pub open spec fn rests_at(o: Order, side: Side, price: u64, security_id: u128) -> bool {
    &&& o.side == side
    &&& o.order_type == OrderType::Limit
    &&& o.price == Some(price)
    &&& o.security_id == security_id
    &&& 0 < o.current_quantity <= o.initial_quantity
    &&& o.status.is_open()
}

/// The mathematical content of a price level: its price and its queue.
pub struct LevelView {
    pub price: u64,
    pub orders: Seq<Order>,
}

impl LevelView {
    /// Total open quantity resting at this price.
    pub open spec fn quantity(self) -> nat {
        orders_quantity(self.orders)
    }

    /// A level is well formed when it is not empty, every order in it
    /// belongs at its price, and the queue is in arrival order.
    pub open spec fn wf(self, side: Side, security_id: u128) -> bool {
        &&& self.orders.len() > 0
        &&& forall|i: int|
            0 <= i < self.orders.len() ==> rests_at(
                #[trigger] self.orders[i],
                side,
                self.price,
                security_id,
            )
        &&& forall|i: int, j: int|
            0 <= i < j < self.orders.len() ==> (#[trigger] self.orders[i]).sequence < (
            #[trigger] self.orders[j]).sequence
    }

    /// The level with `order` joined at the back of the queue.
    pub open spec fn with_back(self, order: Order) -> LevelView {
        LevelView { price: self.price, orders: self.orders.push(order) }
    }

    /// The level without the order at position `p`.
    pub open spec fn without(self, p: int) -> LevelView {
        LevelView { price: self.price, orders: self.orders.remove(p) }
    }

    /// The level with the order at position `p` left with `quantity` open
    /// and given `status`.
    pub open spec fn with_open(self, p: int, quantity: u64, status: OrderStatus) -> LevelView {
        LevelView {
            price: self.price,
            orders: self.orders.update(p, reopened(self.orders[p], quantity, status)),
        }
    }
}

/// `o` with its open quantity and status replaced.
pub open spec fn reopened(o: Order, quantity: u64, status: OrderStatus) -> Order {
    Order { current_quantity: quantity, status, ..o }
}

/// The orders resting at one price, in arrival order, with their total open
/// quantity kept up to date as the queue changes.
#[derive(Debug)]
pub struct PriceLevel {
    price: u64,
    orders: VecDeque<Order>,
    aggregate_quantity: u128,
}

impl View for PriceLevel {
    type V = LevelView;

    closed spec fn view(&self) -> LevelView {
        LevelView { price: self.price, orders: self.orders@ }
    }
}

impl PriceLevel {
    /// The stored aggregate agrees with the queue.
    pub closed spec fn inv(&self) -> bool {
        self.aggregate_quantity == orders_quantity(self.orders@)
    }

    /// A level holding a single order.
    pub fn new(price: u64, order: Order) -> (level: PriceLevel)
        ensures
            level.inv(),
            level@ == (LevelView { price, orders: seq![order] }),
    {
        let mut orders: VecDeque<Order> = VecDeque::new();
        orders.push_back(order);
        proof {
            assert(orders@ =~= seq![order]);
            lemma_sum_one(order, open_quantity());
        }
        PriceLevel { price, orders, aggregate_quantity: order.current_quantity as u128 }
    }

    /// The price of this level.
    pub fn price(&self) -> (price: u64)
        ensures
            price == self@.price,
    {
        self.price
    }

    /// Total open quantity at this price, without walking the queue.
    pub fn aggregate_quantity(&self) -> (quantity: u128)
        requires
            self.inv(),
        ensures
            quantity == self@.quantity(),
    {
        self.aggregate_quantity
    }

    /// Number of orders in the queue.
    pub fn len(&self) -> (n: usize)
        ensures
            n == self@.orders.len(),
    {
        self.orders.len()
    }

    /// The order at position `p`, counted from the front of the queue.
    pub fn get(&self, p: usize) -> (order: Order)
        requires
            p < self@.orders.len(),
        ensures
            order == self@.orders[p as int],
    {
        self.orders[p]
    }

    /// Joins `order` at the back of the queue.
    pub fn push_back(&mut self, order: Order)
        requires
            old(self).inv(),
        ensures
            final(self).inv(),
            final(self)@ == old(self)@.with_back(order),
    {
        proof {
            lemma_quantity_bound(self.orders@);
            lemma_sum_push(self.orders@, order, open_quantity());
        }
        let ghost queued = self.orders@.len();
        self.orders.push_back(order);
        assert(self.orders.len() == self.orders@.len());
        assert(queued * u64::MAX + u64::MAX <= usize::MAX * u64::MAX) by (nonlinear_arith)
            requires
                queued + 1 <= usize::MAX,
        ;
        self.aggregate_quantity = self.aggregate_quantity + order.current_quantity as u128;
    }

    /// Takes the order at position `p` out of the queue; the others keep
    /// their relative order.
    pub fn remove(&mut self, p: usize) -> (order: Order)
        requires
            old(self).inv(),
            p < old(self)@.orders.len(),
        ensures
            final(self).inv(),
            order == old(self)@.orders[p as int],
            final(self)@ == old(self)@.without(p as int),
    {
        proof {
            lemma_sum_remove(self.orders@, p as int, open_quantity());
        }
        let order = self.orders.remove(p).unwrap();
        self.aggregate_quantity = self.aggregate_quantity - order.current_quantity as u128;
        order
    }

    /// Leaves the order at position `p` with `quantity` open and `status`.
    pub fn set_open(&mut self, p: usize, quantity: u64, status: OrderStatus)
        requires
            old(self).inv(),
            p < old(self)@.orders.len(),
            quantity <= old(self)@.orders[p as int].current_quantity,
        ensures
            final(self).inv(),
            final(self)@ == old(self)@.with_open(p as int, quantity, status),
    {
        let order = self.orders[p];
        let updated = Order { current_quantity: quantity, status, ..order };
        proof {
            lemma_sum_update(self.orders@, p as int, updated, open_quantity());
        }
        let removed = self.orders.remove(p);
        self.orders.insert(p, updated);
        assert(self.orders@ =~= old(self).orders@.update(p as int, updated));
        self.aggregate_quantity = self.aggregate_quantity - (order.current_quantity
            - quantity) as u128;
    }

    /// The first position in the queue that holds an order with identifier
    /// `id`, if there is one.
    pub fn position_of(&self, id: u64) -> (found: Option<usize>)
        ensures
            match found {
                Some(p) => {
                    &&& p < self@.orders.len()
                    &&& self@.orders[p as int].id == id
                    &&& forall|q: int| 0 <= q < p ==> (#[trigger] self@.orders[q]).id != id
                },
                None => forall|p: int|
                    0 <= p < self@.orders.len() ==> (#[trigger] self@.orders[p]).id != id,
            },
    {
        let mut p: usize = 0;
        while p < self.orders.len()
            invariant
                p <= self.orders@.len(),
                forall|q: int| 0 <= q < p ==> (#[trigger] self.orders@[q]).id != id,
            decreases self.orders@.len() - p,
        {
            if self.orders[p].id == id {
                return Some(p);
            }
            p = p + 1;
        }
        None
    }
}

/// The open quantity of any queue that fits in memory fits in 128 bits.
pub proof fn lemma_quantity_bound(orders: Seq<Order>)
    ensures
        orders_quantity(orders) <= orders.len() * u64::MAX,
{
    lemma_sum_bound(orders, open_quantity(), u64::MAX as nat);
}

} // verus!
