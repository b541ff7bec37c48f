use clob::{
    BookDepth, CancelResult, DepthLevel, EngineError, Fill, MatchingEngine, NewOrder, OrderSnapshot,
    OrderStatus, OrderType, RestingOrder, Side,
};

const BOOK: u128 = 1;

fn limit(side: Side, quantity: u64, price: u64) -> NewOrder {
    NewOrder { security_id: BOOK, side, order_type: OrderType::Limit, price: Some(price), quantity }
}

fn market(side: Side, quantity: u64) -> NewOrder {
    NewOrder { security_id: BOOK, side, order_type: OrderType::Market, price: None, quantity }
}

fn level(price: u64, quantity: u128) -> DepthLevel {
    DepthLevel { price, quantity }
}

fn depth(engine: &MatchingEngine) -> BookDepth {
    engine.depth(BOOK, 100).unwrap()
}

#[test]
fn buy_limit_on_empty_book_rests() {
    let mut engine = MatchingEngine::new();
    let result = engine.submit(limit(Side::Buy, 100, 50)).unwrap();
    assert!(result.fills.is_empty());
    assert_eq!(result.status, OrderStatus::Active);
    assert_eq!(
        result.resting,
        Some(RestingOrder { order_id: result.order_id, remaining_quantity: 100, price: 50 })
    );
    let shown = depth(&engine);
    assert_eq!(shown.bids, vec![level(50, 100)]);
    assert_eq!(shown.asks, vec![]);
}

#[test]
fn crossing_sell_fills_part_of_resting_buy() {
    let mut engine = MatchingEngine::new();
    let buy = engine.submit(limit(Side::Buy, 100, 50)).unwrap();
    let sell = engine.submit(limit(Side::Sell, 60, 50)).unwrap();
    assert_eq!(
        sell.fills,
        vec![Fill {
            resting_order_id: buy.order_id,
            incoming_order_id: sell.order_id,
            price: 50,
            quantity: 60
        }]
    );
    assert_eq!(sell.status, OrderStatus::Filled);
    assert_eq!(sell.resting, None);
    let shown = depth(&engine);
    assert_eq!(shown.bids, vec![level(50, 40)]);
    assert_eq!(shown.asks, vec![]);
}

#[test]
fn second_sell_fills_rest_and_removes_buy() {
    let mut engine = MatchingEngine::new();
    let buy = engine.submit(limit(Side::Buy, 100, 50)).unwrap();
    engine.submit(limit(Side::Sell, 60, 50)).unwrap();
    let sell = engine.submit(limit(Side::Sell, 40, 50)).unwrap();
    assert_eq!(
        sell.fills,
        vec![Fill {
            resting_order_id: buy.order_id,
            incoming_order_id: sell.order_id,
            price: 50,
            quantity: 40
        }]
    );
    let shown = depth(&engine);
    assert_eq!(shown.bids, vec![]);
    assert_eq!(shown.asks, vec![]);
    assert_eq!(engine.cancel(BOOK, buy.order_id), Err(EngineError::OrderNotFound));
}

#[test]
fn depth_returns_only_the_best_levels_asked_for() {
    let mut engine = MatchingEngine::new();
    engine.submit(limit(Side::Buy, 100, 51)).unwrap();
    engine.submit(limit(Side::Buy, 50, 52)).unwrap();
    let shown = engine.depth(BOOK, 1).unwrap();
    assert_eq!(shown.bids, vec![level(52, 50)]);
    assert_eq!(shown.asks, vec![]);
    let all = engine.depth(BOOK, 2).unwrap();
    assert_eq!(all.bids, vec![level(52, 50), level(51, 100)]);
}

#[test]
fn cancelling_twice_fails_the_second_time() {
    let mut engine = MatchingEngine::new();
    let buy = engine.submit(limit(Side::Buy, 50, 50)).unwrap();
    assert_eq!(
        engine.cancel(BOOK, buy.order_id),
        Ok(CancelResult {
            order_id: buy.order_id,
            cancelled_quantity: 50,
            status: OrderStatus::Cancelled,
        })
    );
    assert_eq!(engine.cancel(BOOK, buy.order_id), Err(EngineError::OrderNotFound));
    assert_eq!(depth(&engine).bids, vec![]);
}

#[test]
fn modify_down_keeps_place_and_reprice_loses_it() {
    let mut engine = MatchingEngine::new();
    let first = engine.submit(limit(Side::Buy, 100, 50)).unwrap();
    let second = engine.submit(limit(Side::Buy, 10, 50)).unwrap();
    let cut = engine.modify(BOOK, first.order_id, Some(50), 40).unwrap();
    assert_eq!(
        cut.order,
        OrderSnapshot {
            order_id: first.order_id,
            price: 50,
            remaining_quantity: 40,
            status: OrderStatus::Active
        }
    );
    assert_eq!(cut.rematch, None);
    assert_eq!(depth(&engine).bids, vec![level(50, 50)]);

    // Still first in the queue at 50: a small sell trades with it, not with `second`.
    let sell = engine.submit(limit(Side::Sell, 5, 50)).unwrap();
    assert_eq!(sell.fills.len(), 1);
    assert_eq!(sell.fills[0].resting_order_id, first.order_id);

    let moved = engine.modify(BOOK, first.order_id, Some(51), 35).unwrap();
    assert_eq!(moved.order.price, 51);
    assert_eq!(moved.order.remaining_quantity, 35);
    assert_eq!(moved.order.status, OrderStatus::PartiallyFilled);
    let rematch = moved.rematch.unwrap();
    assert!(rematch.fills.is_empty());
    assert_eq!(
        rematch.resting,
        Some(RestingOrder { order_id: first.order_id, remaining_quantity: 35, price: 51 })
    );
    assert_eq!(depth(&engine).bids, vec![level(51, 35), level(50, 10)]);

    // Back at 50 it queues behind `second`.
    engine.modify(BOOK, first.order_id, Some(50), 35).unwrap();
    let sell = engine.submit(limit(Side::Sell, 10, 50)).unwrap();
    assert_eq!(sell.fills.len(), 1);
    assert_eq!(sell.fills[0].resting_order_id, second.order_id);
}

#[test]
fn limit_order_without_price_is_invalid() {
    let mut engine = MatchingEngine::new();
    let request = NewOrder {
        security_id: BOOK,
        side: Side::Buy,
        order_type: OrderType::Limit,
        price: None,
        quantity: 10,
    };
    assert_eq!(engine.submit(request), Err(EngineError::InvalidOrder));
    // Nothing was created for the security.
    assert_eq!(engine.depth(BOOK, 1), Err(EngineError::UnknownSecurity));
}

#[test]
fn zero_quantity_is_invalid() {
    let mut engine = MatchingEngine::new();
    assert_eq!(engine.submit(limit(Side::Sell, 0, 10)), Err(EngineError::InvalidOrder));
    assert_eq!(engine.submit(market(Side::Sell, 0)), Err(EngineError::InvalidOrder));
    assert_eq!(engine.depth(BOOK, 1), Err(EngineError::UnknownSecurity));
}

#[test]
fn invalid_order_consumes_no_identifier() {
    let mut engine = MatchingEngine::new();
    assert!(engine.submit(limit(Side::Buy, 0, 10)).is_err());
    let first = engine.submit(limit(Side::Buy, 1, 10)).unwrap();
    let second = engine.submit(limit(Side::Buy, 1, 10)).unwrap();
    assert_eq!(first.order_id, 0);
    assert_eq!(second.order_id, 1);
}

#[test]
fn depth_of_unknown_security_is_an_error() {
    let engine = MatchingEngine::new();
    assert_eq!(engine.depth(9, 5), Err(EngineError::UnknownSecurity));
}

#[test]
fn depth_of_zero_levels_is_empty_not_an_error() {
    let mut engine = MatchingEngine::new();
    engine.submit(limit(Side::Buy, 10, 5)).unwrap();
    engine.submit(limit(Side::Sell, 10, 6)).unwrap();
    assert_eq!(engine.depth(BOOK, 0), Ok(BookDepth { bids: vec![], asks: vec![] }));
}

#[test]
fn depth_of_emptied_book_is_empty_but_known() {
    let mut engine = MatchingEngine::new();
    let order = engine.submit(limit(Side::Buy, 10, 5)).unwrap();
    engine.cancel(BOOK, order.order_id).unwrap();
    assert_eq!(engine.depth(BOOK, 3), Ok(BookDepth { bids: vec![], asks: vec![] }));
}

#[test]
fn depth_sums_the_orders_of_a_level() {
    let mut engine = MatchingEngine::new();
    engine.submit(limit(Side::Sell, 7, 20)).unwrap();
    engine.submit(limit(Side::Sell, 8, 20)).unwrap();
    engine.submit(limit(Side::Sell, 1, 19)).unwrap();
    engine.submit(limit(Side::Sell, u64::MAX, 21)).unwrap();
    engine.submit(limit(Side::Sell, u64::MAX, 21)).unwrap();
    let shown = depth(&engine);
    assert_eq!(
        shown.asks,
        vec![level(19, 1), level(20, 15), level(21, 2 * (u64::MAX as u128))]
    );
    assert_eq!(shown.bids, vec![]);
}

#[test]
fn asks_are_listed_lowest_first_and_bids_highest_first() {
    let mut engine = MatchingEngine::new();
    for price in [30u64, 10, 20] {
        engine.submit(limit(Side::Buy, 1, price)).unwrap();
    }
    for price in [60u64, 40, 50] {
        engine.submit(limit(Side::Sell, 2, price)).unwrap();
    }
    let shown = depth(&engine);
    assert_eq!(shown.bids, vec![level(30, 1), level(20, 1), level(10, 1)]);
    assert_eq!(shown.asks, vec![level(40, 2), level(50, 2), level(60, 2)]);
}

#[test]
fn earlier_order_at_a_price_is_filled_before_a_later_one() {
    let mut engine = MatchingEngine::new();
    let a = engine.submit(limit(Side::Sell, 30, 100)).unwrap();
    let b = engine.submit(limit(Side::Sell, 30, 100)).unwrap();
    let taker = engine.submit(limit(Side::Buy, 40, 100)).unwrap();
    assert_eq!(
        taker.fills,
        vec![
            Fill {
                resting_order_id: a.order_id,
                incoming_order_id: taker.order_id,
                price: 100,
                quantity: 30
            },
            Fill {
                resting_order_id: b.order_id,
                incoming_order_id: taker.order_id,
                price: 100,
                quantity: 10
            },
        ]
    );
    assert_eq!(engine.cancel(BOOK, a.order_id), Err(EngineError::OrderNotFound));
    assert_eq!(
        engine.cancel(BOOK, b.order_id),
        Ok(CancelResult {
            order_id: b.order_id,
            cancelled_quantity: 20,
            status: OrderStatus::Cancelled,
        })
    );
}

#[test]
fn later_order_is_untouched_while_earlier_one_still_rests() {
    let mut engine = MatchingEngine::new();
    let a = engine.submit(limit(Side::Buy, 30, 100)).unwrap();
    let b = engine.submit(limit(Side::Buy, 30, 100)).unwrap();
    let taker = engine.submit(limit(Side::Sell, 29, 100)).unwrap();
    assert_eq!(taker.fills.len(), 1);
    assert_eq!(taker.fills[0].resting_order_id, a.order_id);
    assert_eq!(
        engine.cancel(BOOK, b.order_id),
        Ok(CancelResult {
            order_id: b.order_id,
            cancelled_quantity: 30,
            status: OrderStatus::Cancelled,
        })
    );
    assert_eq!(
        engine.cancel(BOOK, a.order_id),
        Ok(CancelResult {
            order_id: a.order_id,
            cancelled_quantity: 1,
            status: OrderStatus::Cancelled,
        })
    );
}

#[test]
fn better_price_is_matched_first_at_the_resting_price() {
    let mut engine = MatchingEngine::new();
    let dear = engine.submit(limit(Side::Sell, 5, 12)).unwrap();
    let cheap = engine.submit(limit(Side::Sell, 5, 10)).unwrap();
    let mid = engine.submit(limit(Side::Sell, 5, 11)).unwrap();
    let taker = engine.submit(limit(Side::Buy, 12, 11)).unwrap();
    assert_eq!(
        taker.fills,
        vec![
            Fill {
                resting_order_id: cheap.order_id,
                incoming_order_id: taker.order_id,
                price: 10,
                quantity: 5
            },
            Fill {
                resting_order_id: mid.order_id,
                incoming_order_id: taker.order_id,
                price: 11,
                quantity: 5
            },
        ]
    );
    assert_eq!(taker.status, OrderStatus::PartiallyFilled);
    assert_eq!(
        taker.resting,
        Some(RestingOrder { order_id: taker.order_id, remaining_quantity: 2, price: 11 })
    );
    let shown = depth(&engine);
    assert_eq!(shown.bids, vec![level(11, 2)]);
    assert_eq!(shown.asks, vec![level(12, 5)]);
    assert!(engine.cancel(BOOK, dear.order_id).is_ok());
}

#[test]
fn sell_matches_highest_bid_first() {
    let mut engine = MatchingEngine::new();
    let low = engine.submit(limit(Side::Buy, 5, 10)).unwrap();
    let high = engine.submit(limit(Side::Buy, 5, 12)).unwrap();
    let taker = engine.submit(limit(Side::Sell, 7, 10)).unwrap();
    assert_eq!(
        taker.fills,
        vec![
            Fill {
                resting_order_id: high.order_id,
                incoming_order_id: taker.order_id,
                price: 12,
                quantity: 5
            },
            Fill {
                resting_order_id: low.order_id,
                incoming_order_id: taker.order_id,
                price: 10,
                quantity: 2
            },
        ]
    );
    assert_eq!(taker.status, OrderStatus::Filled);
    assert_eq!(depth(&engine).bids, vec![level(10, 3)]);
}

#[test]
fn limit_that_does_not_cross_trades_nothing() {
    let mut engine = MatchingEngine::new();
    engine.submit(limit(Side::Sell, 5, 12)).unwrap();
    let buy = engine.submit(limit(Side::Buy, 5, 11)).unwrap();
    assert!(buy.fills.is_empty());
    assert_eq!(buy.status, OrderStatus::Active);
    let shown = depth(&engine);
    assert_eq!(shown.bids, vec![level(11, 5)]);
    assert_eq!(shown.asks, vec![level(12, 5)]);
}

#[test]
fn book_is_never_left_crossed() {
    let mut engine = MatchingEngine::new();
    let requests = [
        limit(Side::Buy, 10, 100),
        limit(Side::Sell, 4, 105),
        limit(Side::Buy, 7, 105),
        limit(Side::Sell, 20, 99),
        limit(Side::Buy, 3, 101),
        limit(Side::Sell, 1, 98),
        market(Side::Buy, 2),
        limit(Side::Buy, 50, 120),
        limit(Side::Sell, 60, 90),
    ];
    for request in requests {
        engine.submit(request).unwrap();
        let shown = depth(&engine);
        if let (Some(bid), Some(ask)) = (shown.bids.first(), shown.asks.first()) {
            assert!(bid.price < ask.price);
        }
    }
}

#[test]
fn market_order_takes_liquidity_at_any_price() {
    let mut engine = MatchingEngine::new();
    let a = engine.submit(limit(Side::Sell, 5, 10)).unwrap();
    let b = engine.submit(limit(Side::Sell, 5, 1_000_000)).unwrap();
    let taker = engine.submit(market(Side::Buy, 8)).unwrap();
    assert_eq!(
        taker.fills,
        vec![
            Fill {
                resting_order_id: a.order_id,
                incoming_order_id: taker.order_id,
                price: 10,
                quantity: 5
            },
            Fill {
                resting_order_id: b.order_id,
                incoming_order_id: taker.order_id,
                price: 1_000_000,
                quantity: 3
            },
        ]
    );
    assert_eq!(taker.status, OrderStatus::Filled);
    assert_eq!(taker.resting, None);
    assert_eq!(depth(&engine).asks, vec![level(1_000_000, 2)]);
}

#[test]
fn market_order_remainder_is_discarded() {
    let mut engine = MatchingEngine::new();
    engine.submit(limit(Side::Buy, 5, 10)).unwrap();
    let taker = engine.submit(market(Side::Sell, 8)).unwrap();
    assert_eq!(taker.fills.len(), 1);
    assert_eq!(taker.fills[0].quantity, 5);
    assert_eq!(taker.status, OrderStatus::Filled);
    assert_eq!(taker.resting, None);
    assert_eq!(depth(&engine), BookDepth { bids: vec![], asks: vec![] });
    assert_eq!(engine.cancel(BOOK, taker.order_id), Err(EngineError::OrderNotFound));
}

#[test]
fn market_order_without_liquidity_is_cancelled() {
    let mut engine = MatchingEngine::new();
    let taker = engine.submit(market(Side::Buy, 8)).unwrap();
    assert!(taker.fills.is_empty());
    assert_eq!(taker.status, OrderStatus::Cancelled);
    assert_eq!(taker.resting, None);
    // The book now exists, and is empty.
    assert_eq!(engine.depth(BOOK, 5), Ok(BookDepth { bids: vec![], asks: vec![] }));
}

#[test]
fn market_order_ignores_a_price_it_carries() {
    let mut engine = MatchingEngine::new();
    engine.submit(limit(Side::Sell, 5, 50)).unwrap();
    let request = NewOrder {
        security_id: BOOK,
        side: Side::Buy,
        order_type: OrderType::Market,
        price: Some(1),
        quantity: 5,
    };
    let taker = engine.submit(request).unwrap();
    assert_eq!(taker.fills.len(), 1);
    assert_eq!(taker.fills[0].price, 50);
}

#[test]
fn quantity_is_conserved() {
    let mut engine = MatchingEngine::new();
    let requests = [
        limit(Side::Buy, 10, 100),
        limit(Side::Buy, 15, 101),
        limit(Side::Sell, 12, 100),
        limit(Side::Sell, 30, 102),
        limit(Side::Buy, 25, 102),
        limit(Side::Sell, 9, 100),
    ];
    let mut submitted: u128 = 0;
    let mut matched: u128 = 0;
    for request in requests {
        submitted += request.quantity as u128;
        let result = engine.submit(request).unwrap();
        matched += result.fills.iter().map(|f| f.quantity as u128).sum::<u128>();
        let shown = depth(&engine);
        let open: u128 =
            shown.bids.iter().chain(shown.asks.iter()).map(|l| l.quantity).sum();
        assert_eq!(open + 2 * matched, submitted);
    }
    assert_eq!(matched, 46);
}

#[test]
fn cancel_accounts_for_the_quantity_it_withdraws() {
    let mut engine = MatchingEngine::new();
    let a = engine.submit(limit(Side::Buy, 10, 100)).unwrap();
    engine.submit(limit(Side::Sell, 4, 100)).unwrap();
    let cancelled = engine.cancel(BOOK, a.order_id).unwrap();
    assert_eq!(cancelled.cancelled_quantity, 6);
    // 0 resting + 2 * 4 matched + 6 withdrawn == 10 + 4 submitted
    assert_eq!(depth(&engine), BookDepth { bids: vec![], asks: vec![] });
}

#[test]
fn same_calls_give_same_results() {
    let script = [
        limit(Side::Buy, 10, 100),
        limit(Side::Sell, 4, 100),
        limit(Side::Sell, 4, 99),
        market(Side::Buy, 1),
        limit(Side::Buy, 10, 100),
        limit(Side::Sell, 30, 100),
    ];
    let mut one = MatchingEngine::new();
    let mut two = MatchingEngine::new();
    for request in script {
        assert_eq!(one.submit(request), two.submit(request));
        assert_eq!(one.depth(BOOK, 10), two.depth(BOOK, 10));
    }
    assert_eq!(one.cancel(BOOK, 5), two.cancel(BOOK, 5));
    assert_eq!(one.modify(BOOK, 5, Some(3), 3), two.modify(BOOK, 5, Some(3), 3));
}

#[test]
fn cancel_removes_order_from_depth_at_once() {
    let mut engine = MatchingEngine::new();
    let a = engine.submit(limit(Side::Sell, 10, 100)).unwrap();
    let b = engine.submit(limit(Side::Sell, 5, 100)).unwrap();
    let c = engine.submit(limit(Side::Sell, 7, 101)).unwrap();
    assert_eq!(depth(&engine).asks, vec![level(100, 15), level(101, 7)]);
    engine.cancel(BOOK, a.order_id).unwrap();
    assert_eq!(depth(&engine).asks, vec![level(100, 5), level(101, 7)]);
    engine.cancel(BOOK, b.order_id).unwrap();
    assert_eq!(depth(&engine).asks, vec![level(101, 7)]);
    engine.cancel(BOOK, c.order_id).unwrap();
    assert_eq!(depth(&engine).asks, vec![]);
}

#[test]
fn cancel_in_the_middle_keeps_the_queue_order() {
    let mut engine = MatchingEngine::new();
    let a = engine.submit(limit(Side::Buy, 1, 10)).unwrap();
    let b = engine.submit(limit(Side::Buy, 2, 10)).unwrap();
    let c = engine.submit(limit(Side::Buy, 3, 10)).unwrap();
    engine.cancel(BOOK, b.order_id).unwrap();
    let taker = engine.submit(limit(Side::Sell, 4, 10)).unwrap();
    let makers: Vec<u64> = taker.fills.iter().map(|f| f.resting_order_id).collect();
    assert_eq!(makers, vec![a.order_id, c.order_id]);
}

#[test]
fn cancel_of_unknown_order_or_security_fails() {
    let mut engine = MatchingEngine::new();
    assert_eq!(engine.cancel(BOOK, 0), Err(EngineError::OrderNotFound));
    let a = engine.submit(limit(Side::Buy, 1, 10)).unwrap();
    assert_eq!(engine.cancel(BOOK, a.order_id + 1), Err(EngineError::OrderNotFound));
    assert_eq!(engine.cancel(BOOK + 1, a.order_id), Err(EngineError::OrderNotFound));
    assert_eq!(depth(&engine).bids, vec![level(10, 1)]);
}

#[test]
fn cancel_of_filled_order_fails() {
    let mut engine = MatchingEngine::new();
    let maker = engine.submit(limit(Side::Buy, 5, 10)).unwrap();
    let taker = engine.submit(limit(Side::Sell, 5, 10)).unwrap();
    assert_eq!(taker.status, OrderStatus::Filled);
    assert_eq!(engine.cancel(BOOK, maker.order_id), Err(EngineError::OrderNotFound));
    assert_eq!(engine.cancel(BOOK, taker.order_id), Err(EngineError::OrderNotFound));
}

#[test]
fn modify_of_unknown_order_fails() {
    let mut engine = MatchingEngine::new();
    assert_eq!(engine.modify(BOOK, 0, Some(1), 1), Err(EngineError::OrderNotFound));
    let a = engine.submit(limit(Side::Buy, 5, 10)).unwrap();
    engine.cancel(BOOK, a.order_id).unwrap();
    assert_eq!(engine.modify(BOOK, a.order_id, Some(10), 1), Err(EngineError::OrderNotFound));
    assert_eq!(engine.modify(BOOK + 1, a.order_id, None, 1), Err(EngineError::OrderNotFound));
}

#[test]
fn modify_to_zero_quantity_is_invalid() {
    let mut engine = MatchingEngine::new();
    let a = engine.submit(limit(Side::Buy, 5, 10)).unwrap();
    assert_eq!(engine.modify(BOOK, a.order_id, None, 0), Err(EngineError::InvalidOrder));
    assert_eq!(engine.modify(BOOK, a.order_id + 9, None, 0), Err(EngineError::InvalidOrder));
    assert_eq!(depth(&engine).bids, vec![level(10, 5)]);
}

#[test]
fn modify_without_price_keeps_the_price() {
    let mut engine = MatchingEngine::new();
    let a = engine.submit(limit(Side::Sell, 5, 10)).unwrap();
    let cut = engine.modify(BOOK, a.order_id, None, 2).unwrap();
    assert_eq!(cut.order.price, 10);
    assert_eq!(cut.order.remaining_quantity, 2);
    assert_eq!(cut.rematch, None);
    assert_eq!(depth(&engine).asks, vec![level(10, 2)]);
}

#[test]
fn modify_up_in_quantity_loses_priority() {
    let mut engine = MatchingEngine::new();
    let a = engine.submit(limit(Side::Sell, 5, 10)).unwrap();
    let b = engine.submit(limit(Side::Sell, 5, 10)).unwrap();
    let raised = engine.modify(BOOK, a.order_id, Some(10), 6).unwrap();
    assert_eq!(raised.order.remaining_quantity, 6);
    assert_eq!(raised.order.status, OrderStatus::Active);
    assert!(raised.rematch.is_some());
    assert_eq!(depth(&engine).asks, vec![level(10, 11)]);
    let taker = engine.submit(limit(Side::Buy, 6, 10)).unwrap();
    let makers: Vec<(u64, u64)> =
        taker.fills.iter().map(|f| (f.resting_order_id, f.quantity)).collect();
    assert_eq!(makers, vec![(b.order_id, 5), (a.order_id, 1)]);
}

#[test]
fn modify_to_same_quantity_and_price_keeps_priority() {
    let mut engine = MatchingEngine::new();
    let a = engine.submit(limit(Side::Sell, 5, 10)).unwrap();
    engine.submit(limit(Side::Sell, 5, 10)).unwrap();
    let same = engine.modify(BOOK, a.order_id, Some(10), 5).unwrap();
    assert_eq!(same.rematch, None);
    let taker = engine.submit(limit(Side::Buy, 1, 10)).unwrap();
    assert_eq!(taker.fills[0].resting_order_id, a.order_id);
}

#[test]
fn modify_to_crossing_price_trades_at_once() {
    let mut engine = MatchingEngine::new();
    let ask = engine.submit(limit(Side::Sell, 5, 12)).unwrap();
    let bid = engine.submit(limit(Side::Buy, 8, 10)).unwrap();
    let moved = engine.modify(BOOK, bid.order_id, Some(12), 8).unwrap();
    let rematch = moved.rematch.unwrap();
    assert_eq!(
        rematch.fills,
        vec![Fill {
            resting_order_id: ask.order_id,
            incoming_order_id: bid.order_id,
            price: 12,
            quantity: 5
        }]
    );
    assert_eq!(rematch.order_id, bid.order_id);
    assert_eq!(
        moved.order,
        OrderSnapshot {
            order_id: bid.order_id,
            price: 12,
            remaining_quantity: 3,
            status: OrderStatus::PartiallyFilled
        }
    );
    assert_eq!(depth(&engine), BookDepth { bids: vec![level(12, 3)], asks: vec![] });
}

#[test]
fn modify_that_fills_completely_leaves_nothing_resting() {
    let mut engine = MatchingEngine::new();
    engine.submit(limit(Side::Sell, 5, 12)).unwrap();
    let bid = engine.submit(limit(Side::Buy, 8, 10)).unwrap();
    let moved = engine.modify(BOOK, bid.order_id, Some(12), 5).unwrap();
    assert_eq!(moved.order.remaining_quantity, 0);
    assert_eq!(moved.order.status, OrderStatus::Filled);
    assert_eq!(moved.rematch.unwrap().resting, None);
    assert_eq!(depth(&engine), BookDepth { bids: vec![], asks: vec![] });
    assert_eq!(engine.cancel(BOOK, bid.order_id), Err(EngineError::OrderNotFound));
}

#[test]
fn repriced_order_gets_a_new_sequence_number_but_keeps_its_identifier() {
    let mut engine = MatchingEngine::new();
    let a = engine.submit(limit(Side::Buy, 5, 10)).unwrap();
    assert_eq!(a.order_id, 0);
    let moved = engine.modify(BOOK, a.order_id, Some(11), 5).unwrap();
    assert_eq!(moved.order.order_id, 0);
    // The amendment used number 1; the next order gets 2.
    let next = engine.submit(limit(Side::Buy, 5, 9)).unwrap();
    assert_eq!(next.order_id, 2);
}

#[test]
fn in_place_modify_uses_no_number() {
    let mut engine = MatchingEngine::new();
    let a = engine.submit(limit(Side::Buy, 5, 10)).unwrap();
    engine.modify(BOOK, a.order_id, None, 4).unwrap();
    let next = engine.submit(limit(Side::Buy, 5, 9)).unwrap();
    assert_eq!(next.order_id, 1);
}

#[test]
fn securities_have_separate_books() {
    let mut engine = MatchingEngine::new();
    let bid = engine.submit(limit(Side::Buy, 5, 10)).unwrap();
    let other = NewOrder {
        security_id: BOOK + 1,
        side: Side::Sell,
        order_type: OrderType::Limit,
        price: Some(10),
        quantity: 5,
    };
    let ask = engine.submit(other).unwrap();
    assert!(ask.fills.is_empty());
    assert_ne!(bid.order_id, ask.order_id);
    assert_eq!(engine.depth(BOOK, 5).unwrap().bids, vec![level(10, 5)]);
    assert_eq!(engine.depth(BOOK + 1, 5).unwrap().asks, vec![level(10, 5)]);
    assert_eq!(engine.depth(BOOK + 1, 5).unwrap().bids, vec![]);
}

#[test]
fn identifiers_are_never_reused() {
    let mut engine = MatchingEngine::new();
    let mut seen = Vec::new();
    for round in 0..20u64 {
        let side = if round % 2 == 0 { Side::Buy } else { Side::Sell };
        let result = engine.submit(limit(side, 3, 10)).unwrap();
        assert!(!seen.contains(&result.order_id));
        seen.push(result.order_id);
    }
}

#[test]
fn new_engine_has_capacity() {
    let engine = MatchingEngine::new();
    assert!(engine.has_capacity());
}

#[test]
fn exact_fill_of_incoming_against_larger_book() {
    let mut engine = MatchingEngine::new();
    let a = engine.submit(limit(Side::Buy, 5, 10)).unwrap();
    let b = engine.submit(limit(Side::Buy, 5, 10)).unwrap();
    let taker = engine.submit(limit(Side::Sell, 5, 10)).unwrap();
    assert_eq!(taker.fills.len(), 1);
    assert_eq!(taker.fills[0].resting_order_id, a.order_id);
    assert_eq!(taker.status, OrderStatus::Filled);
    assert_eq!(depth(&engine).bids, vec![level(10, 5)]);
    assert!(engine.cancel(BOOK, b.order_id).is_ok());
}
