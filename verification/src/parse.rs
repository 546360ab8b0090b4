//! The text form of an order: one line of integers separated by whitespace,
//! `side amount price sequence [strategy]`.
//!
//! The side is written 4 for an ask and 8 for a bid, the strategy 0 for a limit
//! order and 1 for a market order; a line without a strategy is a limit order.

use crate::orders::{Order, Side, Strategy};
use vstd::prelude::*;

verus! {

/// Why a line is not an order.
#[derive(Copy, Clone, PartialEq, Eq, Debug, Structural)]
pub enum ParseOrderError {
    /// The line has fewer than four fields.
    MissingField,
    /// The line has more than five fields.
    TooManyFields,
    /// A field is not a decimal integer of 32 bits.
    InvalidInteger,
    /// The side is neither 4 nor 8.
    InvalidSide,
    /// The amount is not above zero.
    InvalidAmount,
    /// The price is below zero.
    InvalidPrice,
    /// The strategy is neither 0 nor 1.
    InvalidStrategy,
}

/// The byte of a space.
pub const SPACE: u8 = 0x20;

/// The byte of a tab.
pub const TAB: u8 = 0x09;

/// The byte of a line feed.
pub const LINE_FEED: u8 = 0x0a;

/// The byte of a carriage return.
pub const CARRIAGE_RETURN: u8 = 0x0d;

/// The byte of `+`.
pub const PLUS: u8 = 0x2b;

/// The byte of `-`.
pub const MINUS: u8 = 0x2d;

/// The byte of the digit 0.
pub const DIGIT_ZERO: u8 = 0x30;

/// The byte of the digit 9.
pub const DIGIT_NINE: u8 = 0x39;

/// The code of the ask side.
pub const ASK_CODE: i32 = 4;

/// The code of the bid side.
pub const BID_CODE: i32 = 8;

/// The code of the limit strategy.
pub const LIMIT_CODE: i32 = 0;

/// The code of the market strategy.
pub const MARKET_CODE: i32 = 1;

/// Whether `byte` separates fields: a space, a tab, a line feed or a
/// carriage return.
pub open spec fn is_space(byte: u8) -> bool {
    byte == SPACE || byte == TAB || byte == LINE_FEED || byte == CARRIAGE_RETURN
}

/// Whether `byte` is an ASCII digit.
pub open spec fn is_digit(byte: u8) -> bool {
    DIGIT_ZERO <= byte <= DIGIT_NINE
}

/// The number of bytes at the head of `text` up to its first whitespace.
pub open spec fn field_len(text: Seq<u8>) -> nat
    decreases text.len(),
{
    if text.len() == 0 || is_space(text[0]) {
        0
    } else {
        1 + field_len(text.drop_first())
    }
}

/// The fields of `text`: its longest runs of bytes without whitespace, in
/// the order in which they stand.
pub open spec fn fields(text: Seq<u8>) -> Seq<Seq<u8>>
    decreases text.len(),
    via fields_decreases
{
    if text.len() == 0 {
        Seq::empty()
    } else if is_space(text[0]) {
        fields(text.drop_first())
    } else {
        seq![text.take(field_len(text) as int)] + fields(text.skip(field_len(text) as int))
    }
}

#[via_fn]
proof fn fields_decreases(text: Seq<u8>) {
    lemma_field_len_bounds(text);
}

/// A field is no longer than its text, and is not empty where the text
/// begins with something else than whitespace.
pub proof fn lemma_field_len_bounds(text: Seq<u8>)
    ensures
        field_len(text) <= text.len(),
        text.len() > 0 && !is_space(text[0]) ==> field_len(text) >= 1,
    decreases text.len(),
{
    if text.len() > 0 && !is_space(text[0]) {
        lemma_field_len_bounds(text.drop_first());
    }
}

/// The number that the decimal digits `digits` write.
pub open spec fn digits_value(digits: Seq<u8>) -> int
    decreases digits.len(),
{
    if digits.len() == 0 {
        0
    } else {
        10 * digits_value(digits.drop_last()) + (digits.last() - DIGIT_ZERO)
    }
}

/// Whether `digits` is one decimal digit or more, and nothing else.
pub open spec fn is_number(digits: Seq<u8>) -> bool {
    digits.len() > 0 && forall|i: int| 0 <= i < digits.len() ==> is_digit(#[trigger] digits[i])
}

/// The 32-bit integer that `field` writes: an optional `+` or `-`, then one
/// decimal digit or more. `None` where it writes none, or one out of range.
pub open spec fn integer(field: Seq<u8>) -> Option<int> {
    let signed = field.len() > 0 && (field[0] == PLUS || field[0] == MINUS);
    let digits = if signed {
        field.drop_first()
    } else {
        field
    };
    let value = if signed && field[0] == MINUS {
        -digits_value(digits)
    } else {
        digits_value(digits)
    };
    if is_number(digits) && i32::MIN <= value <= i32::MAX {
        Some(value)
    } else {
        None
    }
}

/// The side that `code` stands for.
pub open spec fn side_of_code(code: int) -> Option<Side> {
    if code == ASK_CODE {
        Some(Side::Ask)
    } else if code == BID_CODE {
        Some(Side::Bid)
    } else {
        None
    }
}

/// The strategy that `code` stands for.
pub open spec fn strategy_of_code(code: int) -> Option<Strategy> {
    if code == LIMIT_CODE {
        Some(Strategy::Limit)
    } else if code == MARKET_CODE {
        Some(Strategy::Market)
    } else {
        None
    }
}

/// The order that the line `line` writes, or the first reason why it writes
/// none: the number of fields is looked at first, then whether each field is
/// an integer, then the side, the amount, the price and the strategy.
pub open spec fn parse_order(line: Seq<u8>) -> Result<Order, ParseOrderError> {
    let fields = fields(line);
    if fields.len() < 4 {
        Err(ParseOrderError::MissingField)
    } else if fields.len() > 5 {
        Err(ParseOrderError::TooManyFields)
    } else if exists|i: int| 0 <= i < fields.len() && integer(#[trigger] fields[i]) is None {
        Err(ParseOrderError::InvalidInteger)
    } else {
        let side = side_of_code(integer(fields[0]).unwrap());
        let amount = integer(fields[1]).unwrap();
        let price = integer(fields[2]).unwrap();
        let sequence = integer(fields[3]).unwrap();
        let strategy = if fields.len() == 5 {
            strategy_of_code(integer(fields[4]).unwrap())
        } else {
            Some(Strategy::Limit)
        };
        if side is None {
            Err(ParseOrderError::InvalidSide)
        } else if amount <= 0 {
            Err(ParseOrderError::InvalidAmount)
        } else if price < 0 {
            Err(ParseOrderError::InvalidPrice)
        } else if strategy is None {
            Err(ParseOrderError::InvalidStrategy)
        } else {
            Ok(
                Order {
                    side: side.unwrap(),
                    amount: amount as i32,
                    price: price as i32,
                    timestamp: sequence as i32,
                    strategy: strategy.unwrap(),
                },
            )
        }
    }
}

/// The pieces of `line` that `spans` marks, each from its first index up to
/// its second.
pub open spec fn spanned(line: Seq<u8>, spans: Seq<(usize, usize)>) -> Seq<Seq<u8>> {
    Seq::new(spans.len(), |k: int| line.subrange(spans[k].0 as int, spans[k].1 as int))
}

/// Where each digit is one, the digits up to any place write no number
/// below zero and none above what all of them write.
proof fn lemma_digits_value_grows(digits: Seq<u8>, k: int)
    requires
        0 <= k <= digits.len(),
        forall|i: int| 0 <= i < digits.len() ==> is_digit(#[trigger] digits[i]),
    ensures
        0 <= digits_value(digits.take(k)) <= digits_value(digits),
    decreases digits.len(),
{
    if digits.len() > 0 {
        let shorter = digits.drop_last();
        lemma_digits_value_grows(shorter, shorter.len() as int);
        assert(shorter.take(shorter.len() as int) =~= shorter);
        if k == digits.len() {
            assert(digits.take(k) =~= digits);
        } else {
            lemma_digits_value_grows(shorter, k);
            assert(shorter.take(k) =~= digits.take(k));
        }
    } else {
        assert(digits.take(k) =~= digits);
    }
}

/// Whether `byte` separates fields.
fn is_space_byte(byte: u8) -> (space: bool)
    ensures
        space == is_space(byte),
{
    byte == SPACE || byte == TAB || byte == LINE_FEED || byte == CARRIAGE_RETURN
}

/// The first index from `from` on at which `line` holds no whitespace.
fn skip_spaces(line: &[u8], from: usize) -> (to: usize)
    requires
        from <= line@.len(),
    ensures
        from <= to <= line@.len(),
        to < line@.len() ==> !is_space(line@[to as int]),
        fields(line@.skip(to as int)) == fields(line@.skip(from as int)),
{
    let mut to = from;
    while to < line.len() && is_space_byte(line[to])
        invariant
            from <= to <= line@.len(),
            fields(line@.skip(to as int)) == fields(line@.skip(from as int)),
        decreases line@.len() - to,
    {
        assert(line@.skip(to as int).drop_first() =~= line@.skip(to + 1));
        to += 1;
    }
    to
}

/// The index at which the field that begins at `from` ends.
fn field_end(line: &[u8], from: usize) -> (to: usize)
    requires
        from <= line@.len(),
    ensures
        from <= to <= line@.len(),
        to == from + field_len(line@.skip(from as int)),
{
    let mut to = from;
    while to < line.len() && !is_space_byte(line[to])
        invariant
            from <= to <= line@.len(),
            field_len(line@.skip(from as int)) == (to - from) + field_len(line@.skip(to as int)),
        decreases line@.len() - to,
    {
        assert(line@.skip(to as int).drop_first() =~= line@.skip(to + 1));
        to += 1;
    }
    to
}

/// Finds the fields of `line`: for each, where it begins and where it ends.
pub fn split_fields(line: &[u8]) -> (spans: Vec<(usize, usize)>)
    ensures
        spanned(line@, spans@) == fields(line@),
        forall|k: int|
            0 <= k < spans@.len() ==> (#[trigger] spans@[k]).0 < spans@[k].1 <= line@.len(),
{
    let mut spans: Vec<(usize, usize)> = Vec::new();
    assert(line@.skip(0) =~= line@);
    let mut at = skip_spaces(line, 0);
    assert(spanned(line@, spans@) + fields(line@.skip(at as int)) =~= fields(line@));
    while at < line.len()
        invariant
            at <= line@.len(),
            at < line@.len() ==> !is_space(line@[at as int]),
            spanned(line@, spans@) + fields(line@.skip(at as int)) == fields(line@),
            forall|k: int|
                0 <= k < spans@.len() ==> (#[trigger] spans@[k]).0 < spans@[k].1 <= line@.len(),
        decreases line@.len() - at,
    {
        let end = field_end(line, at);
        let ghost text = line@.skip(at as int);
        let ghost field = line@.subrange(at as int, end as int);
        let ghost before = spans@;
        proof {
            lemma_field_len_bounds(text);
            assert(text.take(end - at) =~= field);
            assert(text.skip(end - at) =~= line@.skip(end as int));
        }
        spans.push((at, end));
        at = skip_spaces(line, end);
        proof {
            let rest = fields(line@.skip(at as int));
            assert(spanned(line@, spans@) =~= spanned(line@, before).push(field));
            assert(spanned(line@, before).push(field) + rest =~= spanned(line@, before) + (
            seq![field] + rest));
        }
    }
    assert(fields(line@.skip(at as int)) =~= Seq::<Seq<u8>>::empty());
    assert(spanned(line@, spans@) + Seq::<Seq<u8>>::empty() =~= spanned(line@, spans@));
    spans
}

/// Reads the integer that `line` writes from `start` up to `end`.
#[verifier::loop_isolation(false)]
pub fn parse_integer(line: &[u8], start: usize, end: usize) -> (value: Option<i32>)
    requires
        start <= end <= line@.len(),
    ensures
        match value {
            Some(value) => integer(line@.subrange(start as int, end as int)) == Some(value as int),
            None => integer(line@.subrange(start as int, end as int)) is None,
        },
{
    let ghost field = line@.subrange(start as int, end as int);
    if start == end {
        return None;
    }
    assert(field[0] == line@[start as int]);
    let negative = line[start] == MINUS;
    let first = if negative || line[start] == PLUS {
        start + 1
    } else {
        start
    };
    let ghost digits = line@.subrange(first as int, end as int);
    assert(digits =~= if first > start {
        field.drop_first()
    } else {
        field
    });
    if first == end {
        return None;
    }
    let mut magnitude: i64 = 0;
    let mut at = first;
    assert(digits.take(0) =~= Seq::<u8>::empty());
    while at < end
        invariant
            first <= at <= end <= line@.len(),
            digits == line@.subrange(first as int, end as int),
            forall|i: int| 0 <= i < at - first ==> is_digit(#[trigger] digits[i]),
            magnitude == digits_value(digits.take(at - first)),
            0 <= magnitude <= 0x8000_0000,
        decreases end - at,
    {
        let byte = line[at];
        assert(byte == digits[at - first]);
        if byte < DIGIT_ZERO || byte > DIGIT_NINE {
            return None;
        }
        magnitude = magnitude * 10 + (byte - DIGIT_ZERO) as i64;
        assert(digits.take(at - first + 1).drop_last() =~= digits.take(at - first));
        if magnitude > 0x8000_0000 {
            proof {
                if is_number(digits) {
                    lemma_digits_value_grows(digits, at - first + 1);
                }
            }
            return None;
        }
        at += 1;
    }
    assert(digits.take(at - first) =~= digits);
    if negative {
        Some((-magnitude) as i32)
    } else if magnitude > 0x7fff_ffff {
        None
    } else {
        Some(magnitude as i32)
    }
}

/// Reads an order from the bytes of one line of text.
#[verifier::loop_isolation(false)]
pub fn order_from_bytes(line: &[u8]) -> (parsed: Result<Order, ParseOrderError>)
    ensures
        parsed == parse_order(line@),
        parsed matches Ok(order) ==> order.valid(),
{
    let spans = split_fields(line);
    if spans.len() < 4 {
        return Err(ParseOrderError::MissingField);
    }
    if spans.len() > 5 {
        return Err(ParseOrderError::TooManyFields);
    }
    let ghost fields = fields(line@);
    let mut values: Vec<i32> = Vec::new();
    let mut k: usize = 0;
    while k < spans.len()
        invariant
            k <= spans@.len(),
            values@.len() == k,
            fields == spanned(line@, spans@),
            forall|j: int|
                0 <= j < spans@.len() ==> (#[trigger] spans@[j]).0 < spans@[j].1 <= line@.len(),
            forall|j: int| 0 <= j < k ==> integer(#[trigger] fields[j]) == Some(values@[j] as int),
        decreases spans@.len() - k,
    {
        let (start, end) = spans[k];
        assert(fields[k as int] == line@.subrange(start as int, end as int));
        match parse_integer(line, start, end) {
            Some(value) => values.push(value),
            None => {
                return Err(ParseOrderError::InvalidInteger);
            },
        }
        k += 1;
    }
    let side = if values[0] == ASK_CODE {
        Side::Ask
    } else if values[0] == BID_CODE {
        Side::Bid
    } else {
        return Err(ParseOrderError::InvalidSide);
    };
    if values[1] <= 0 {
        return Err(ParseOrderError::InvalidAmount);
    }
    if values[2] < 0 {
        return Err(ParseOrderError::InvalidPrice);
    }
    let strategy = if values.len() == 4 || values[4] == LIMIT_CODE {
        Strategy::Limit
    } else if values[4] == MARKET_CODE {
        Strategy::Market
    } else {
        return Err(ParseOrderError::InvalidStrategy);
    };
    Ok(Order { side, amount: values[1], price: values[2], timestamp: values[3], strategy })
}

} // verus!
