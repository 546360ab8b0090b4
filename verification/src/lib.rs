//! The matching core of a price-time-priority order book.
//!
//! An [`OrderBook`](book::OrderBook) keeps two queues of resting orders, one
//! per side, each in priority order. [`execute_limit_order`](engine::execute_limit_order)
//! matches one incoming order against the opposite queue, records a
//! [`Trade`](orders::Trade) per fill and rests what is left of the order.
//! [`order_from_str`](orders::order_from_str) reads an order from a line of
//! text.

pub mod book;
pub mod engine;
pub mod orders;
pub mod parse;
