//! Orders, trades and the rule that decides whether two orders may trade.

use crate::parse::{order_from_bytes, parse_order, ParseOrderError};
use std::cmp::Ordering;
use std::str::FromStr;
use vstd::prelude::*;
use vstd::string::StringSliceAdditionalSpecFns;

verus! {

/// The side of the book an order belongs to.
#[derive(Copy, Clone, PartialEq, Eq, Debug, Structural)]
pub enum Side {
    /// Buying interest.
    Bid,
    /// Selling interest.
    Ask,
}

impl Side {
    /// The side an order of this side trades against.
    pub open spec fn spec_opposite(self) -> Side {
        match self {
            Side::Bid => Side::Ask,
            Side::Ask => Side::Bid,
        }
    }

    /// The side an order of this side trades against.
    #[verifier::when_used_as_spec(spec_opposite)]
    pub fn opposite(self) -> (other: Side)
        ensures
            other == self.spec_opposite(),
    {
        match self {
            Side::Bid => Side::Ask,
            Side::Ask => Side::Bid,
        }
    }
}

/// How an incoming order decides which resting orders it may trade with.
#[derive(Copy, Clone, PartialEq, Eq, Debug, Structural)]
pub enum Strategy {
    /// Trades only at the order's price or better.
    Limit,
    /// Trades at whatever price rests on the other side.
    Market,
}

/// An order: either on its way into the book or resting in it.
#[derive(Copy, Clone, Debug)]
pub struct Order {
    /// The side on which the order rests when it is not filled at once.
    pub side: Side,
    /// The quantity that is still unfilled.
    pub amount: i32,
    /// The limit price, in ticks. A market order carries one but never reads it
    /// while matching.
    pub price: i32,
    /// The arrival sequence number: the earlier of two orders has the smaller one.
    /// It also identifies the order in the trades it takes part in.
    pub timestamp: i32,
    /// The rule by which the order picks the resting orders it trades with.
    pub strategy: Strategy,
}

/// The record of one fill between an incoming order and a resting one.
#[derive(Copy, Clone, Debug)]
pub struct Trade {
    /// The sequence number of the incoming order.
    pub executing_order_id: i32,
    /// The sequence number of the resting order.
    pub matched_order_id: i32,
    /// Wall-clock time of the fill, in nanoseconds since the Unix epoch.
    pub timestamp: u128,
    /// The quantity that changed hands.
    pub amount: i32,
    /// The price of the fill: always the resting order's.
    pub price: i32,
}

impl Strategy {
    /// Whether `this_order`, the incoming order that carries this strategy, may
    /// trade with the resting order `other`.
    pub open spec fn eligible(self, this_order: Order, other: Order) -> bool {
        match self {
            Strategy::Limit => {
                ||| this_order.side == Side::Bid && this_order.price >= other.price
                ||| this_order.side == Side::Ask && this_order.price <= other.price
            },
            Strategy::Market => true,
        }
    }

    /// Decides whether `this_order` may trade with the resting order `other`.
    pub fn matches(&self, this_order: &Order, other: &Order) -> (eligible: bool)
        ensures
            eligible == self.eligible(*this_order, *other),
    {
        match self {
            Strategy::Limit => {
                (this_order.side == Side::Bid && this_order.price >= other.price) || (
                this_order.side == Side::Ask && this_order.price <= other.price)
            },
            Strategy::Market => true,
        }
    }
}

impl Order {
    /// What every order handed to the book satisfies: something is left to fill,
    /// and the price is not negative.
    pub open spec fn valid(self) -> bool {
        self.amount > 0 && self.price >= 0
    }

    /// This order with `amount` as its unfilled quantity.
    pub open spec fn with_amount(self, amount: int) -> Order {
        Order { amount: amount as i32, ..self }
    }

    /// Decides whether the order can be handed to the book.
    pub fn is_valid(&self) -> (valid: bool)
        ensures
            valid == self.valid(),
    {
        self.amount > 0 && self.price >= 0
    }

    /// Whether this incoming order may trade with the resting order `other`,
    /// by the order's own strategy.
    pub open spec fn eligible(self, other: Order) -> bool {
        self.strategy.eligible(self, other)
    }

    /// Decides whether this incoming order may trade with the resting order `other`.
    pub fn matches(&self, other: &Self) -> (eligible: bool)
        ensures
            eligible == self.eligible(*other),
    {
        self.strategy.matches(self, other)
    }

    /// The key that places an order in the queue of its side, smallest first:
    /// the price, negated for a bid so that the highest bid comes first, then
    /// the sequence number.
    pub open spec fn queue_key(self) -> (int, int) {
        match self.side {
            Side::Bid => (-(self.price as int), self.timestamp as int),
            Side::Ask => (self.price as int, self.timestamp as int),
        }
    }

    /// Whether this order stands strictly ahead of `other` in a queue that holds
    /// both: its key is the smaller one.
    pub open spec fn precedes(self, other: Order) -> bool {
        let (price, sequence) = self.queue_key();
        let (other_price, other_sequence) = other.queue_key();
        price < other_price || (price == other_price && sequence < other_sequence)
    }
}

/// Priority is a strict order on the orders of one side: no order precedes
/// itself, of two orders at most one precedes the other, what precedes an
/// order precedes all that the order precedes, and two orders of which
/// neither precedes the other agree in price and in sequence number.
pub proof fn lemma_priority_is_strict_order(a: Order, b: Order, c: Order)
    requires
        a.side == b.side,
        b.side == c.side,
    ensures
        !a.precedes(a),
        a.precedes(b) ==> !b.precedes(a),
        a.precedes(b) && b.precedes(c) ==> a.precedes(c),
        a.precedes(b) || b.precedes(a) || (a.price == b.price && a.timestamp == b.timestamp),
{
}

/// Two orders are equal when they agree in price and in sequence number, the
/// two fields that decide a place in a queue. Side, amount and strategy are
/// not compared.
impl PartialEq for Order {
    fn eq(&self, other: &Self) -> (equal: bool) {
        self.price == other.price && self.timestamp == other.timestamp
    }
}

impl vstd::std_specs::cmp::PartialEqSpecImpl for Order {
    open spec fn obeys_eq_spec() -> bool {
        true
    }

    open spec fn eq_spec(&self, other: &Self) -> bool {
        self.price == other.price && self.timestamp == other.timestamp
    }
}

impl Eq for Order {

}

/// Orders of one side are ordered by priority: the smaller order is the one
/// that stands ahead in the queue. Orders of different sides are never
/// ordered; they compare as equal where `==` holds, and not at all otherwise.
impl PartialOrd for Order {
    fn partial_cmp(&self, other: &Self) -> (order: Option<Ordering>) {
        if self.side == other.side {
            let (near, far) = match self.side {
                Side::Bid => (other.price, self.price),
                Side::Ask => (self.price, other.price),
            };
            if near < far {
                Some(Ordering::Less)
            } else if near > far {
                Some(Ordering::Greater)
            } else if self.timestamp < other.timestamp {
                Some(Ordering::Less)
            } else if self.timestamp > other.timestamp {
                Some(Ordering::Greater)
            } else {
                Some(Ordering::Equal)
            }
        } else if self.price == other.price && self.timestamp == other.timestamp {
            Some(Ordering::Equal)
        } else {
            None
        }
    }
}

impl vstd::std_specs::cmp::PartialOrdSpecImpl for Order {
    open spec fn obeys_partial_cmp_spec() -> bool {
        true
    }

    open spec fn partial_cmp_spec(&self, other: &Self) -> Option<Ordering> {
        if self.side == other.side {
            if self.precedes(*other) {
                Some(Ordering::Less)
            } else if other.precedes(*self) {
                Some(Ordering::Greater)
            } else {
                Some(Ordering::Equal)
            }
        } else if self.price == other.price && self.timestamp == other.timestamp {
            Some(Ordering::Equal)
        } else {
            None
        }
    }
}

impl FromStr for Order {
    type Err = ParseOrderError;

    /// Reads an order from one line of text, as `order_from_str` does.
    fn from_str(raw_str: &str) -> (parsed: Result<Self, Self::Err>)
        ensures
            parsed == parse_order(raw_str.spec_bytes()),
            parsed matches Ok(order) ==> order.valid(),
    {
        order_from_str(raw_str)
    }
}

/// Reads an order from one line of text: `side amount price sequence`, then
/// the strategy or nothing, as integers with whitespace between them. The
/// result is the order that the bytes of the line write, or the reason why
/// they write none; an order that comes back is valid.
pub fn order_from_str(raw_str: &str) -> (parsed: Result<Order, ParseOrderError>)
    ensures
        parsed == parse_order(raw_str.spec_bytes()),
        parsed matches Ok(order) ==> order.valid(),
{
    order_from_bytes(raw_str.as_bytes())
}

} // verus!
