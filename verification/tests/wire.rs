use clob::wire::{
    cause, decode_order_id, new_order, order_type_of, parse_order_id, side_of, status_code,
    wire_quantity, CODE_LIMIT, CODE_MARKET, STATUS_BAD_REQUEST, STATUS_NOT_FOUND, STATUS_OK,
};
use clob::{EngineError, MatchingEngine, NewOrder, OrderType, Side};

#[test]
fn order_ids_are_read_as_decimal_digits() {
    assert_eq!(parse_order_id(b"0"), Some(0));
    assert_eq!(parse_order_id(b"7"), Some(7));
    assert_eq!(parse_order_id(b"007"), Some(7));
    assert_eq!(parse_order_id(b"1234567890"), Some(1234567890));
    assert_eq!(parse_order_id(b"18446744073709551615"), Some(u64::MAX));
    assert_eq!(parse_order_id(b"00018446744073709551615"), Some(u64::MAX));
}

#[test]
fn order_ids_that_do_not_fit_are_refused() {
    assert_eq!(parse_order_id(b"18446744073709551616"), None);
    assert_eq!(parse_order_id(b"18446744073709551620"), None);
    assert_eq!(parse_order_id(b"99999999999999999999"), None);
    assert_eq!(parse_order_id(b"184467440737095516150"), None);
}

#[test]
fn order_ids_that_are_not_digits_are_refused() {
    assert_eq!(parse_order_id(b""), None);
    assert_eq!(parse_order_id(b"12a"), None);
    assert_eq!(parse_order_id(b"a12"), None);
    assert_eq!(parse_order_id(b"+5"), None);
    assert_eq!(parse_order_id(b"-1"), None);
    assert_eq!(parse_order_id(b" 1"), None);
    assert_eq!(parse_order_id(b"1 "), None);
    assert_eq!(parse_order_id(b"1.0"), None);
    assert_eq!(parse_order_id(b"/"), None);
    assert_eq!(parse_order_id(b":"), None);
    assert_eq!(parse_order_id("١٢".as_bytes()), None);
}

#[test]
fn order_ids_read_back_as_they_are_written() {
    for id in [0u64, 1, 9, 10, 99, 100, 4_294_967_296, u64::MAX - 1, u64::MAX] {
        assert_eq!(parse_order_id(id.to_string().as_bytes()), Some(id));
    }
}

#[test]
fn errors_map_to_statuses_other_than_ok() {
    assert_eq!(STATUS_OK, 200);
    assert_eq!(status_code(EngineError::InvalidOrder), STATUS_BAD_REQUEST);
    assert_eq!(status_code(EngineError::OrderNotFound), STATUS_NOT_FOUND);
    assert_eq!(status_code(EngineError::UnknownSecurity), STATUS_NOT_FOUND);
    assert_eq!(STATUS_BAD_REQUEST, 400);
    assert_eq!(STATUS_NOT_FOUND, 404);
}

#[test]
fn errors_have_causes() {
    assert_eq!(cause(EngineError::InvalidOrder), "invalid order");
    assert_eq!(cause(EngineError::OrderNotFound), "order not found");
    assert_eq!(cause(EngineError::UnknownSecurity), "unknown security");
}

#[test]
fn buy_flag_picks_the_side() {
    assert_eq!(side_of(true), Side::Buy);
    assert_eq!(side_of(false), Side::Sell);
}

#[test]
fn order_type_codes_are_decoded() {
    assert_eq!(order_type_of(CODE_LIMIT), Some(OrderType::Limit));
    assert_eq!(order_type_of(CODE_MARKET), Some(OrderType::Market));
    assert_eq!(order_type_of(0), Some(OrderType::Limit));
    assert_eq!(order_type_of(1), Some(OrderType::Market));
    assert_eq!(order_type_of(2), None);
    assert_eq!(order_type_of(-1), None);
    assert_eq!(order_type_of(i32::MAX), None);
}

#[test]
fn requests_are_built_from_their_parts() {
    assert_eq!(
        new_order(9, true, 0, Some(35), 400),
        Ok(NewOrder {
            security_id: 9,
            side: Side::Buy,
            order_type: OrderType::Limit,
            price: Some(35),
            quantity: 400
        })
    );
    assert_eq!(
        new_order(u128::MAX, false, 1, None, 1),
        Ok(NewOrder {
            security_id: u128::MAX,
            side: Side::Sell,
            order_type: OrderType::Market,
            price: None,
            quantity: 1
        })
    );
    assert_eq!(new_order(9, true, 7, Some(35), 400), Err(EngineError::InvalidOrder));
}

#[test]
fn built_request_goes_through_the_engine() {
    let mut engine = MatchingEngine::new();
    let request = new_order(9, true, 0, Some(35), 400).unwrap();
    let result = engine.submit(request).unwrap();
    assert_eq!(parse_order_id(result.order_id.to_string().as_bytes()), Some(result.order_id));
    let shown = engine.depth(9, 1).unwrap();
    assert_eq!(wire_quantity(shown.bids[0].quantity), 400);
}

#[test]
fn wide_quantities_saturate_on_the_wire() {
    assert_eq!(wire_quantity(0), 0);
    assert_eq!(wire_quantity(12), 12);
    assert_eq!(wire_quantity(u64::MAX as u128), u64::MAX);
    assert_eq!(wire_quantity(u64::MAX as u128 + 1), u64::MAX);
    assert_eq!(wire_quantity(u128::MAX), u64::MAX);
}

#[test]
fn malformed_order_id_is_an_invalid_input() {
    assert_eq!(decode_order_id(b"42"), Ok(42));
    assert_eq!(decode_order_id(b""), Err(EngineError::InvalidOrder));
    assert_eq!(decode_order_id(b"4 2"), Err(EngineError::InvalidOrder));
    assert_eq!(decode_order_id(b"18446744073709551616"), Err(EngineError::InvalidOrder));
}
