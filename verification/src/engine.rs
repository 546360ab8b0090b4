//! The matching loop: one incoming order against the opposite side of the book.

use crate::book::{decremented, is_queue, rank, OrderBook};
use crate::orders::{Order, Side, Strategy, Trade};
use std::collections::VecDeque;
use std::time::{Duration, SystemTime, SystemTimeError, UNIX_EPOCH};
use vstd::prelude::*;

verus! {

/// What a trade records apart from the time at which it happened.
pub struct Fill {
    pub executing_order_id: i32,
    pub matched_order_id: i32,
    pub amount: i32,
    pub price: i32,
}

/// What the matching of one order against one queue comes to.
pub struct Outcome {
    /// The fills, oldest first.
    pub fills: Seq<Fill>,
    /// What is left of the incoming order.
    pub unfilled: int,
    /// What is left of the queue.
    pub queue: Seq<Order>,
}

impl Trade {
    /// The trade with its time set aside.
    pub open spec fn fill(self) -> Fill {
        Fill {
            executing_order_id: self.executing_order_id,
            matched_order_id: self.matched_order_id,
            amount: self.amount,
            price: self.price,
        }
    }

    /// The record of the fill between `incoming` and the order `resting` at the
    /// head of the opposite queue, made at time `timestamp`: the smaller of
    /// the two unfilled quantities changes hands, at the price of `resting`.
    pub fn record(incoming: &Order, resting: &Order, timestamp: u128) -> (trade: Trade)
        ensures
            trade.fill() == fill_between(*incoming, *resting),
            trade.timestamp == timestamp,
    {
        Trade {
            executing_order_id: incoming.timestamp,
            matched_order_id: resting.timestamp,
            timestamp,
            amount: if incoming.amount < resting.amount {
                incoming.amount
            } else {
                resting.amount
            },
            price: resting.price,
        }
    }
}

/// The fill between the order `incoming` and the order `resting`: the smaller
/// of the two unfilled quantities, at the price of the resting order.
pub open spec fn fill_between(incoming: Order, resting: Order) -> Fill {
    Fill {
        executing_order_id: incoming.timestamp,
        matched_order_id: resting.timestamp,
        amount: if incoming.amount < resting.amount {
            incoming.amount
        } else {
            resting.amount
        },
        price: resting.price,
    }
}

/// Matches `incoming` against `queue`, the opposite side of the book, best
/// order first. While something of `incoming` is left and it may trade with
/// the head of the queue, the two fill each other; a head that is filled
/// leaves the queue.
pub open spec fn matching(incoming: Order, queue: Seq<Order>) -> Outcome
    decreases queue.len(), incoming.amount,
{
    if incoming.amount <= 0 || queue.len() == 0 || !incoming.eligible(queue[0]) {
        Outcome { fills: Seq::empty(), unfilled: incoming.amount as int, queue }
    } else {
        let fill = fill_between(incoming, queue[0]);
        let rest = matching(
            incoming.with_amount(incoming.amount - fill.amount),
            decremented(queue, fill.amount as int),
        );
        Outcome { fills: seq![fill] + rest.fills, unfilled: rest.unfilled, queue: rest.queue }
    }
}

/// Whether `trade` is a trade of `incoming` with the order at place `i` of
/// `queue`: it names both orders, moves a quantity above zero that the
/// resting order had, and has the price of the resting order.
pub open spec fn made_with(trade: Trade, incoming: Order, queue: Seq<Order>, i: int) -> bool {
    &&& 0 <= i < queue.len()
    &&& trade.executing_order_id == incoming.timestamp
    &&& trade.matched_order_id == queue[i].timestamp
    &&& trade.price == queue[i].price
    &&& 0 < trade.amount <= queue[i].amount
}

/// The quantity that `fills` moved, all together.
pub open spec fn filled(fills: Seq<Fill>) -> int
    decreases fills.len(),
{
    if fills.len() == 0 {
        0
    } else {
        fills[0].amount + filled(fills.drop_first())
    }
}

/// Matching leaves a queue a queue: what rests afterwards is still in
/// priority order, and every order in it has a quantity above zero.
pub proof fn lemma_matching_leaves_queue(incoming: Order, queue: Seq<Order>, side: Side)
    requires
        is_queue(queue, side),
    ensures
        is_queue(matching(incoming, queue).queue, side),
        forall|i: int|
            0 <= i < matching(incoming, queue).queue.len() ==> (#[trigger] matching(
                incoming,
                queue,
            ).queue[i]).amount > 0,
    decreases queue.len(), incoming.amount,
{
    if !(incoming.amount <= 0 || queue.len() == 0 || !incoming.eligible(queue[0])) {
        let fill = fill_between(incoming, queue[0]);
        let next = decremented(queue, fill.amount as int);
        assert(is_queue(next, side));
        let left = incoming.with_amount(incoming.amount - fill.amount);
        lemma_matching_leaves_queue(left, next, side);
    }
}

/// Amount conservation: what the fills moved and what is left of the incoming
/// order add up to what the order came with.
pub proof fn lemma_matching_conserves_amount(incoming: Order, queue: Seq<Order>, side: Side)
    requires
        incoming.valid(),
        is_queue(queue, side),
    ensures
        filled(matching(incoming, queue).fills) + matching(incoming, queue).unfilled
            == incoming.amount,
        0 <= matching(incoming, queue).unfilled <= incoming.amount,
    decreases queue.len(),
{
    if !(queue.len() == 0 || !incoming.eligible(queue[0])) {
        let fill = fill_between(incoming, queue[0]);
        let left = incoming.with_amount(incoming.amount - fill.amount);
        let next = decremented(queue, fill.amount as int);
        let rest = matching(left, next);
        assert((seq![fill] + rest.fills).drop_first() =~= rest.fills);
        if left.amount > 0 {
            assert(is_queue(next, side));
            lemma_matching_conserves_amount(left, next, side);
        } else {
            assert(filled(rest.fills) == 0);
        }
        assert(filled(seq![fill] + rest.fills) == fill.amount + filled(rest.fills));
    }
}

/// The fills go down the queue from its head, one resting order each: fill
/// `i` is made with the order that rested at place `i`. Its amount is the
/// smaller of what was left of the incoming order when its turn came and the
/// quantity of that resting order, and it is above zero. Price improvement:
/// its price is the price of the resting order, whatever the incoming order
/// asked for. It names the incoming order and the resting order by their
/// sequence numbers.
pub proof fn lemma_fill_by_place(incoming: Order, queue: Seq<Order>, side: Side, i: int)
    requires
        incoming.valid(),
        is_queue(queue, side),
        0 <= i < matching(incoming, queue).fills.len(),
    ensures
        i < queue.len(),
        incoming.eligible(queue[i]),
        ({
            let fills = matching(incoming, queue).fills;
            let left = incoming.amount - filled(fills.take(i));
            &&& left > 0
            &&& fills[i].amount == if left < queue[i].amount {
                left
            } else {
                queue[i].amount as int
            }
            &&& fills[i].amount > 0
            &&& fills[i].price == queue[i].price
            &&& fills[i].matched_order_id == queue[i].timestamp
            &&& fills[i].executing_order_id == incoming.timestamp
        }),
    decreases i,
{
    let fills = matching(incoming, queue).fills;
    let fill = fill_between(incoming, queue[0]);
    let left = incoming.with_amount(incoming.amount - fill.amount);
    let next = decremented(queue, fill.amount as int);
    let rest = matching(left, next);
    assert(fills == seq![fill] + rest.fills);
    if i == 0 {
        assert(fills.take(0) =~= Seq::<Fill>::empty());
    } else {
        assert(rest.fills.len() > 0);
        assert(next == queue.drop_first());
        assert(is_queue(next, side));
        lemma_fill_by_place(left, next, side, i - 1);
        assert(fills[i] == rest.fills[i - 1]);
        assert(next[i - 1] == queue[i]);
        assert(fills.take(i).drop_first() =~= rest.fills.take(i - 1));
        assert(fills.take(i)[0] == fill);
    }
}

/// A limit order that crosses no resting order trades with none: there is
/// no fill, the queue stays as it was, and the whole order is left.
pub proof fn lemma_uncrossed_limit_order_fills_nothing(incoming: Order, queue: Seq<Order>)
    requires
        incoming.strategy == Strategy::Limit,
        forall|i: int| 0 <= i < queue.len() ==> !incoming.eligible(#[trigger] queue[i]),
    ensures
        matching(incoming, queue).fills == Seq::<Fill>::empty(),
        matching(incoming, queue).queue == queue,
        matching(incoming, queue).unfilled == incoming.amount,
{
}

/// `std::time::SystemTime`, a reading of the system clock. Nothing is known
/// of what a value holds.
#[verifier::external_type_specification]
#[verifier::external_body]
pub struct ExSystemTime(std::time::SystemTime);

/// `std::time::SystemTimeError`, the error of `SystemTime::duration_since`.
/// Nothing is known of what a value holds.
#[verifier::external_type_specification]
#[verifier::external_body]
pub struct ExSystemTimeError(std::time::SystemTimeError);

/// Reads the system clock with `std::time::SystemTime::now`. Nothing is
/// claimed of the time that comes back.
#[verifier::external_body]
fn system_time_now() -> (now: SystemTime) {
    SystemTime::now()
}

/// The time from the Unix epoch to `time`, by `SystemTime::duration_since`,
/// which fails where `time` stands before the epoch. Nothing is claimed of
/// the result.
#[verifier::external_body]
fn since_unix_epoch(time: &SystemTime) -> (elapsed: Result<Duration, SystemTimeError>) {
    time.duration_since(UNIX_EPOCH)
}

/// The length of `elapsed` in nanoseconds, by `Duration::as_nanos`. Nothing
/// is claimed of the number.
#[verifier::external_body]
fn as_nanos(elapsed: &Duration) -> (nanos: u128) {
    elapsed.as_nanos()
}

/// The wall-clock time in nanoseconds since the Unix epoch, and 0 where the
/// clock stands before the epoch. Two readings need not agree, nor the later
/// be the larger.
fn wall_clock_nanos() -> (nanos: u128) {
    let reading = match since_unix_epoch(&system_time_now()) {
        Ok(elapsed) => Some(as_nanos(&elapsed)),
        Err(_) => None,
    };
    time_of_reading(reading)
}

/// The time that a reading of the clock stands for: the nanoseconds since
/// the Unix epoch that it gave, and 0 where the clock stood before the epoch
/// and gave none.
pub fn time_of_reading(reading: Option<u128>) -> (nanos: u128)
    ensures
        nanos == match reading {
            Some(nanos) => nanos,
            None => 0,
        },
{
    match reading {
        Some(nanos) => nanos,
        None => 0,
    }
}

/// `queue`, the side of `order`, once the order has been executed and
/// `unfilled` of it is left: what is left rests at its rank, and a filled
/// order does not rest.
pub open spec fn rested(queue: Seq<Order>, order: Order, unfilled: int) -> Seq<Order> {
    if unfilled > 0 {
        queue.insert(
            rank(queue, order.with_amount(unfilled)) as int,
            order.with_amount(unfilled),
        )
    } else {
        queue
    }
}

/// Executes `new_order` against `book`: matches it against the opposite side
/// for as long as it may trade, and rests what is left of it on its own side.
/// Returns the trades in the order in which they happened. Each trade carries
/// the wall-clock time of its fill; a clock that stands before the Unix epoch
/// gives 0.
pub fn execute_limit_order(book: &mut OrderBook, new_order: Order) -> (trades: VecDeque<Trade>)
    requires
        old(book).wf(),
        new_order.valid(),
    ensures
        final(book).wf(),
        ({
            let outcome = matching(new_order, old(book).resting(new_order.side.opposite()));
            &&& trades@.map_values(|trade: Trade| trade.fill()) == outcome.fills
            &&& final(book).resting(new_order.side.opposite()) == outcome.queue
            &&& final(book).resting(new_order.side) == rested(
                old(book).resting(new_order.side),
                new_order,
                outcome.unfilled,
            )
        }),
        // Amount conservation.
        filled(trades@.map_values(|trade: Trade| trade.fill())) + matching(
            new_order,
            old(book).resting(new_order.side.opposite()),
        ).unfilled == new_order.amount,
        // Each trade is made with the resting order of its place, at that order's price.
        forall|i: int|
            0 <= i < trades@.len() ==> made_with(
                #[trigger] trades@[i],
                new_order,
                old(book).resting(new_order.side.opposite()),
                i,
            ),
        // Nothing rests without a quantity.
        forall|side: Side, i: int|
            0 <= i < final(book).resting(side).len() ==> (#[trigger] final(book).resting(
                side,
            )[i]).amount > 0,
        // A limit order that crosses nothing changes nothing on the other side.
        new_order.strategy == Strategy::Limit && (forall|i: int|
            0 <= i < old(book).resting(new_order.side.opposite()).len() ==> !new_order.eligible(
                #[trigger] old(book).resting(new_order.side.opposite())[i],
            )) ==> trades@.len() == 0 && final(book).resting(new_order.side.opposite()) == old(
            book,
        ).resting(new_order.side.opposite()),
{
    let other_side = new_order.side.opposite();
    let mut incoming = new_order;
    let mut trades: VecDeque<Trade> = VecDeque::new();
    let ghost whole = matching(new_order, book.resting(other_side));
    assert(trades@.map_values(|trade: Trade| trade.fill()) =~= Seq::<Fill>::empty());
    assert(Seq::<Fill>::empty() + whole.fills =~= whole.fills);

    while incoming.amount > 0 && !book.is_empty(other_side) && incoming.matches(
        book.peek_best(other_side).unwrap(),
    )
        invariant
            book.wf(),
            other_side == new_order.side.opposite(),
            book.resting(new_order.side) == old(book).resting(new_order.side),
            0 <= incoming.amount <= new_order.amount,
            incoming == new_order.with_amount(incoming.amount as int),
            whole == matching(new_order, old(book).resting(other_side)),
            whole.fills == trades@.map_values(|trade: Trade| trade.fill()) + matching(
                incoming,
                book.resting(other_side),
            ).fills,
            whole.unfilled == matching(incoming, book.resting(other_side)).unfilled,
            whole.queue == matching(incoming, book.resting(other_side)).queue,
        decreases book.resting(other_side).len(), incoming.amount,
    {
        let matched_order = *book.peek_best(other_side).unwrap();
        let trade = Trade::record(&incoming, &matched_order, wall_clock_nanos());
        let ghost before = incoming;
        let ghost queue = book.resting(other_side);
        let ghost earlier = trades@;
        incoming.amount = incoming.amount - trade.amount;
        if trade.amount == matched_order.amount {
            book.pop_best(other_side);
        } else {
            book.decrement_best(other_side, trade.amount);
        }
        trades.push_back(trade);
        proof {
            let fill = fill_between(before, queue[0]);
            let rest = matching(incoming, book.resting(other_side));
            assert(incoming == before.with_amount(before.amount - fill.amount));
            assert(book.resting(other_side) == decremented(queue, fill.amount as int));
            assert(matching(before, queue).fills == seq![fill] + rest.fills);
            assert(trades@.map_values(|trade: Trade| trade.fill()) =~= earlier.map_values(
                |trade: Trade| trade.fill(),
            ).push(fill));
            assert(earlier.map_values(|trade: Trade| trade.fill()).push(fill) + rest.fills
                =~= earlier.map_values(|trade: Trade| trade.fill()) + (seq![fill] + rest.fills));
        }
    }
    if incoming.amount > 0 {
        book.insert(incoming);
    }
    proof {
        let resting = old(book).resting(other_side);
        lemma_matching_conserves_amount(new_order, resting, other_side);
        assert forall|i: int| 0 <= i < trades@.len() implies made_with(
            #[trigger] trades@[i],
            new_order,
            resting,
            i,
        ) by {
            lemma_fill_by_place(new_order, resting, other_side, i);
            assert(trades@.map_values(|trade: Trade| trade.fill())[i] == trades@[i].fill());
        }
        assert forall|side: Side, i: int| 0 <= i < book.resting(side).len() implies (
        #[trigger] book.resting(side)[i]).amount > 0 by {
            assert(is_queue(book.resting(side), side));
        }
    }
    trades
}

} // verus!
