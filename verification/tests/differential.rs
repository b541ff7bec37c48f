use clob::{
    BookDepth, CancelResult, DepthLevel, EngineError, Fill, MatchingEngine, NewOrder, OrderStatus,
    OrderType, Side,
};

const BOOK: u128 = 42;

#[derive(Clone, Debug)]
struct Resting {
    id: u64,
    side: Side,
    price: u64,
    open: u64,
    sequence: u64,
    status: OrderStatus,
}

/// A book kept as one flat list, matched by searching for the best order
/// each time.
struct Naive {
    resting: Vec<Resting>,
    next: u64,
    known: bool,
}

struct NaiveMatch {
    order_id: u64,
    status: OrderStatus,
    fills: Vec<Fill>,
    remaining: Option<(u64, u64)>,
}

impl Naive {
    fn new() -> Self {
        Naive { resting: Vec::new(), next: 0, known: false }
    }

    fn best_against(&self, side: Side, limit: Option<u64>) -> Option<usize> {
        let mut best: Option<usize> = None;
        for (i, o) in self.resting.iter().enumerate() {
            if o.side == side {
                continue;
            }
            let acceptable = match (limit, side) {
                (None, _) => true,
                (Some(l), Side::Buy) => l >= o.price,
                (Some(l), Side::Sell) => l <= o.price,
            };
            if !acceptable {
                continue;
            }
            let better = match best {
                None => true,
                Some(b) => {
                    let b = &self.resting[b];
                    let by_price = match side {
                        Side::Buy => o.price < b.price,
                        Side::Sell => o.price > b.price,
                    };
                    by_price || (o.price == b.price && o.sequence < b.sequence)
                }
            };
            if better {
                best = Some(i);
            }
        }
        best
    }

    fn run(
        &mut self,
        id: u64,
        sequence: u64,
        side: Side,
        limit: Option<u64>,
        quantity: u64,
        carried: OrderStatus,
    ) -> NaiveMatch {
        let mut left = quantity;
        let mut fills = Vec::new();
        while left > 0 {
            let Some(i) = self.best_against(side, limit) else { break };
            let traded = left.min(self.resting[i].open);
            fills.push(Fill {
                resting_order_id: self.resting[i].id,
                incoming_order_id: id,
                price: self.resting[i].price,
                quantity: traded,
            });
            left -= traded;
            self.resting[i].open -= traded;
            if self.resting[i].open == 0 {
                self.resting.remove(i);
            } else {
                self.resting[i].status = OrderStatus::PartiallyFilled;
            }
        }
        let traded = !fills.is_empty();
        match limit {
            Some(price) if left > 0 => {
                let status = if traded { OrderStatus::PartiallyFilled } else { carried };
                self.resting.push(Resting {
                    id,
                    side,
                    price,
                    open: left,
                    sequence,
                    status,
                });
                NaiveMatch { order_id: id, status, fills, remaining: Some((left, price)) }
            }
            _ => NaiveMatch {
                order_id: id,
                status: if traded { OrderStatus::Filled } else { OrderStatus::Cancelled },
                fills,
                remaining: None,
            },
        }
    }

    fn submit(&mut self, request: NewOrder) -> Result<NaiveMatch, EngineError> {
        let limit = match request.order_type {
            OrderType::Limit => request.price,
            OrderType::Market => None,
        };
        if request.quantity == 0 || (request.order_type == OrderType::Limit && limit.is_none()) {
            return Err(EngineError::InvalidOrder);
        }
        self.known = true;
        let number = self.next;
        self.next += 1;
        Ok(self.run(number, number, request.side, limit, request.quantity, OrderStatus::Active))
    }

    fn cancel(&mut self, id: u64) -> Result<CancelResult, EngineError> {
        match self.resting.iter().position(|o| o.id == id) {
            Some(i) => {
                let o = self.resting.remove(i);
                Ok(CancelResult {
                    order_id: id,
                    cancelled_quantity: o.open,
                    status: OrderStatus::Cancelled,
                })
            }
            None => Err(EngineError::OrderNotFound),
        }
    }

    #[allow(clippy::type_complexity)]
    fn modify(
        &mut self,
        id: u64,
        new_price: Option<u64>,
        new_quantity: u64,
    ) -> Result<(u64, u64, OrderStatus, Option<NaiveMatch>), EngineError> {
        if new_quantity == 0 {
            return Err(EngineError::InvalidOrder);
        }
        let Some(i) = self.resting.iter().position(|o| o.id == id) else {
            return Err(EngineError::OrderNotFound);
        };
        let price = new_price.unwrap_or(self.resting[i].price);
        if price == self.resting[i].price && new_quantity <= self.resting[i].open {
            self.resting[i].open = new_quantity;
            return Ok((price, new_quantity, self.resting[i].status, None));
        }
        let old = self.resting.remove(i);
        let number = self.next;
        self.next += 1;
        let rematch = self.run(id, number, old.side, Some(price), new_quantity, old.status);
        let left = rematch.remaining.map(|(q, _)| q).unwrap_or(0);
        Ok((price, left, rematch.status, Some(rematch)))
    }

    fn depth(&self, count: usize) -> Result<BookDepth, EngineError> {
        if !self.known {
            return Err(EngineError::UnknownSecurity);
        }
        let side_depth = |side: Side| {
            let mut prices: Vec<u64> =
                self.resting.iter().filter(|o| o.side == side).map(|o| o.price).collect();
            prices.sort();
            prices.dedup();
            if side == Side::Buy {
                prices.reverse();
            }
            prices
                .into_iter()
                .take(count)
                .map(|price| DepthLevel {
                    price,
                    quantity: self
                        .resting
                        .iter()
                        .filter(|o| o.side == side && o.price == price)
                        .map(|o| o.open as u128)
                        .sum(),
                })
                .collect::<Vec<_>>()
        };
        Ok(BookDepth { bids: side_depth(Side::Buy), asks: side_depth(Side::Sell) })
    }

    fn open_quantity(&self) -> u128 {
        self.resting.iter().map(|o| o.open as u128).sum()
    }
}

struct Dice(u64);

impl Dice {
    fn roll(&mut self, sides: u64) -> u64 {
        self.0 = self.0.wrapping_mul(6364136223846793005).wrapping_add(1442695040888963407);
        (self.0 >> 33) % sides
    }
}

fn same_match(got: &clob::MatchResult, want: &NaiveMatch) {
    assert_eq!(got.order_id, want.order_id);
    assert_eq!(got.status, want.status);
    assert_eq!(got.fills, want.fills);
    assert_eq!(
        got.resting.map(|r| (r.order_id, r.remaining_quantity, r.price)),
        want.remaining.map(|(q, p)| (want.order_id, q, p))
    );
}

fn play(seed: u64, steps: usize) {
    let mut dice = Dice(seed);
    let mut engine = MatchingEngine::new();
    let mut naive = Naive::new();
    let mut submitted: u128 = 0;
    let mut matched: u128 = 0;
    let mut withdrawn: u128 = 0;

    for _ in 0..steps {
        match dice.roll(10) {
            0..=5 => {
                let side = if dice.roll(2) == 0 { Side::Buy } else { Side::Sell };
                let market = dice.roll(8) == 0;
                let request = NewOrder {
                    security_id: BOOK,
                    side,
                    order_type: if market { OrderType::Market } else { OrderType::Limit },
                    price: if dice.roll(20) == 0 { None } else { Some(95 + dice.roll(10)) },
                    quantity: dice.roll(12),
                };
                let got = engine.submit(request);
                let want = naive.submit(request);
                match (&got, &want) {
                    (Ok(g), Ok(w)) => {
                        same_match(g, w);
                        let traded: u128 = g.fills.iter().map(|f| f.quantity as u128).sum();
                        submitted += request.quantity as u128;
                        matched += traded;
                        if g.resting.is_none() {
                            withdrawn += request.quantity as u128 - traded;
                        }
                    }
                    (Err(g), Err(w)) => assert_eq!(g, w),
                    _ => panic!("engines disagree on {:?}", request),
                }
            }
            6 | 7 => {
                let id = dice.roll(naive.next + 2);
                let got = engine.cancel(BOOK, id);
                let want = naive.cancel(id);
                assert_eq!(got, want);
                if let Ok(done) = got {
                    withdrawn += done.cancelled_quantity as u128;
                }
            }
            _ => {
                let id = dice.roll(naive.next + 2);
                let new_price = if dice.roll(3) == 0 { None } else { Some(95 + dice.roll(10)) };
                let new_quantity = dice.roll(14);
                let before = naive.resting.iter().find(|o| o.id == id).map(|o| o.open);
                let got = engine.modify(BOOK, id, new_price, new_quantity);
                let want = naive.modify(id, new_price, new_quantity);
                match (&got, &want) {
                    (Ok(g), Ok((price, left, status, rematch))) => {
                        assert_eq!(g.order.order_id, id);
                        assert_eq!(g.order.price, *price);
                        assert_eq!(g.order.remaining_quantity, *left);
                        assert_eq!(g.order.status, *status);
                        match (&g.rematch, rematch) {
                            (Some(gm), Some(wm)) => {
                                same_match(gm, wm);
                                let traded: u128 =
                                    gm.fills.iter().map(|f| f.quantity as u128).sum();
                                withdrawn += before.unwrap() as u128;
                                submitted += new_quantity as u128;
                                matched += traded;
                            }
                            (None, None) => {
                                withdrawn += (before.unwrap() - new_quantity) as u128;
                            }
                            _ => panic!("engines disagree on amendment of {}", id),
                        }
                    }
                    (Err(g), Err(w)) => assert_eq!(g, w),
                    _ => panic!("engines disagree on amendment of {}", id),
                }
            }
        }

        let count = dice.roll(6) as usize;
        assert_eq!(engine.depth(BOOK, count), naive.depth(count));
        if let Ok(all) = engine.depth(BOOK, usize::MAX) {
            if let (Some(bid), Some(ask)) = (all.bids.first(), all.asks.first()) {
                assert!(bid.price < ask.price);
            }
            assert!(all.bids.windows(2).all(|w| w[0].price > w[1].price));
            assert!(all.asks.windows(2).all(|w| w[0].price < w[1].price));
            assert!(all.bids.iter().chain(all.asks.iter()).all(|l| l.quantity > 0));
            let open: u128 = all.bids.iter().chain(all.asks.iter()).map(|l| l.quantity).sum();
            assert_eq!(open, naive.open_quantity());
            assert_eq!(open + 2 * matched + withdrawn, submitted);
        }
    }
}

#[test]
fn engine_agrees_with_a_naive_book_seed_1() {
    play(1, 3000);
}

#[test]
fn engine_agrees_with_a_naive_book_seed_2() {
    play(0x9e3779b97f4a7c15, 3000);
}

#[test]
fn engine_agrees_with_a_naive_book_seed_3() {
    play(20240229, 3000);
}
