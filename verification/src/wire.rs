//! The rules by which a transport front end decodes what it receives for
//! the engine and encodes what the engine hands back.

use crate::types::{EngineError, NewOrder, OrderType, Side};
use vstd::prelude::*;

verus! {

/// The status code of a call that succeeded.
pub const STATUS_OK: u32 = 200;

/// The status code of a call whose input was malformed.
pub const STATUS_BAD_REQUEST: u32 = 400;

/// The status code of a call that named something the engine does not hold.
pub const STATUS_NOT_FOUND: u32 = 404;

/// The order type code for a limit order.
pub const CODE_LIMIT: i32 = 0;

/// The order type code for a market order.
pub const CODE_MARKET: i32 = 1;

/// The status code reported for an engine error. It is never
/// [`STATUS_OK`].
pub fn status_code(error: EngineError) -> (code: u32)
    ensures
        code != STATUS_OK,
        code == match error {
            EngineError::InvalidOrder => STATUS_BAD_REQUEST,
            EngineError::OrderNotFound => STATUS_NOT_FOUND,
            EngineError::UnknownSecurity => STATUS_NOT_FOUND,
        },
{
    match error {
        EngineError::InvalidOrder => STATUS_BAD_REQUEST,
        EngineError::OrderNotFound => STATUS_NOT_FOUND,
        EngineError::UnknownSecurity => STATUS_NOT_FOUND,
    }
}

/// The cause reported for an engine error.
pub fn cause(error: EngineError) -> (text: &'static str)
    ensures
        text@ == match error {
            EngineError::InvalidOrder => "invalid order"@,
            EngineError::OrderNotFound => "order not found"@,
            EngineError::UnknownSecurity => "unknown security"@,
        },
{
    match error {
        EngineError::InvalidOrder => "invalid order",
        EngineError::OrderNotFound => "order not found",
        EngineError::UnknownSecurity => "unknown security",
    }
}

/// The side a buy flag stands for.
pub fn side_of(is_buy_side: bool) -> (side: Side)
    ensures
        side == (if is_buy_side {
            Side::Buy
        } else {
            Side::Sell
        }),
{
    if is_buy_side {
        Side::Buy
    } else {
        Side::Sell
    }
}

/// The order type a code stands for, if it stands for one.
pub open spec fn order_type_for(code: i32) -> Option<OrderType> {
    if code == CODE_LIMIT {
        Some(OrderType::Limit)
    } else if code == CODE_MARKET {
        Some(OrderType::Market)
    } else {
        None
    }
}

/// Decodes an order type code.
pub fn order_type_of(code: i32) -> (order_type: Option<OrderType>)
    ensures
        order_type == order_type_for(code),
{
    if code == CODE_LIMIT {
        Some(OrderType::Limit)
    } else if code == CODE_MARKET {
        Some(OrderType::Market)
    } else {
        None
    }
}

/// Builds the request for a new order from its parts as received. An
/// unknown order type code yields `InvalidOrder`.
pub fn new_order(
    security_id: u128,
    is_buy_side: bool,
    order_type: i32,
    price: Option<u64>,
    quantity: u64,
) -> (request: Result<NewOrder, EngineError>)
    ensures
        request == (match order_type_for(order_type) {
            Some(decoded) => Ok(
                NewOrder {
                    security_id,
                    side: if is_buy_side {
                        Side::Buy
                    } else {
                        Side::Sell
                    },
                    order_type: decoded,
                    price,
                    quantity,
                },
            ),
            None => Err(EngineError::InvalidOrder),
        }),
{
    match order_type_of(order_type) {
        Some(decoded) => Ok(
            NewOrder {
                security_id,
                side: side_of(is_buy_side),
                order_type: decoded,
                price,
                quantity,
            },
        ),
        None => Err(EngineError::InvalidOrder),
    }
}

/// A quantity as it goes on the wire: itself if it fits in 64 bits, the
/// largest 64-bit value if it does not.
pub fn wire_quantity(quantity: u128) -> (shown: u64)
    ensures
        shown == (if quantity <= u64::MAX {
            quantity
        } else {
            u64::MAX as u128
        }),
{
    if quantity <= u64::MAX as u128 {
        quantity as u64
    } else {
        u64::MAX
    }
}

/// The byte is an ASCII decimal digit.
pub open spec fn is_digit(b: u8) -> bool {
    48 <= b <= 57
}

/// Every byte is an ASCII decimal digit.
pub open spec fn all_digits(text: Seq<u8>) -> bool {
    forall|i: int| 0 <= i < text.len() ==> is_digit(#[trigger] text[i])
}

/// The number that a string of decimal digits denotes.
pub open spec fn decimal_value(text: Seq<u8>) -> nat
    decreases text.len(),
{
    if text.len() == 0 {
        0
    } else {
        decimal_value(text.drop_last()) * 10 + (if is_digit(text.last()) {
            (text.last() - 48) as nat
        } else {
            0
        })
    }
}

/// The order identifier that `text` denotes: `text` must be one or more
/// decimal digits whose value fits in 64 bits.
pub open spec fn order_id_for(text: Seq<u8>) -> Option<u64> {
    if text.len() > 0 && all_digits(text) && decimal_value(text) <= u64::MAX {
        Some(decimal_value(text) as u64)
    } else {
        None
    }
}

/// A prefix of a digit string denotes no more than the whole string.
pub proof fn lemma_decimal_prefix(text: Seq<u8>, n: int)
    requires
        0 <= n <= text.len(),
    ensures
        decimal_value(text.take(n)) <= decimal_value(text),
    decreases text.len() - n,
{
    if n == text.len() {
        assert(text.take(n) =~= text);
    } else {
        lemma_decimal_prefix(text, n + 1);
        assert(text.take(n + 1).drop_last() =~= text.take(n));
    }
}

/// Decodes an order identifier from its decimal text.
pub fn parse_order_id(text: &[u8]) -> (id: Option<u64>)
    ensures
        id == order_id_for(text@),
{
    if text.len() == 0 {
        return None;
    }
    let mut value: u64 = 0;
    let mut i: usize = 0;
    while i < text.len()
        invariant
            i <= text@.len(),
            all_digits(text@.take(i as int)),
            value == decimal_value(text@.take(i as int)),
        decreases text@.len() - i,
    {
        let b = text[i];
        proof {
            assert(text@.take(i + 1).drop_last() =~= text@.take(i as int));
            assert(text@.take(i + 1).last() == b);
            lemma_decimal_prefix(text@, i + 1);
        }
        if b < 48 || b > 57 {
            return None;
        }
        let digit: u64 = (b - 48) as u64;
        let shifted = match value.checked_mul(10) {
            Some(shifted) => shifted,
            None => {
                return None;
            },
        };
        value = match shifted.checked_add(digit) {
            Some(sum) => sum,
            None => {
                return None;
            },
        };
        proof {
            assert forall|j: int| 0 <= j < i + 1 implies is_digit(
                #[trigger] text@.take(i + 1)[j],
            ) by {
                if j < i {
                    assert(text@.take(i as int)[j] == text@.take(i + 1)[j]);
                }
            }
        }
        i = i + 1;
    }
    proof {
        assert(text@.take(text@.len() as int) =~= text@);
    }
    Some(value)
}


/// Decodes an order identifier as received: text that denotes none is a
/// malformed input.
pub fn decode_order_id(text: &[u8]) -> (id: Result<u64, EngineError>)
    ensures
        id == (match order_id_for(text@) {
            Some(id) => Ok(id),
            None => Err(EngineError::InvalidOrder),
        }),
{
    match parse_order_id(text) {
        Some(id) => Ok(id),
        None => Err(EngineError::InvalidOrder),
    }
}

} // verus!
