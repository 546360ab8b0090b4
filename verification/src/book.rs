//! The order book: one queue of resting orders per side, each kept in
//! price-time priority.

use crate::orders::{Order, Side};
use std::collections::VecDeque;
use vstd::prelude::*;

verus! {

/// Whether `queue` can be one side of a book: every order in it is a valid
/// order of side `side`, and no order stands behind one that it precedes.
pub open spec fn is_queue(queue: Seq<Order>, side: Side) -> bool {
    &&& forall|i: int|
        0 <= i < queue.len() ==> (#[trigger] queue[i]).side == side && queue[i].valid()
    &&& forall|i: int, j: int|
        0 <= i < j < queue.len() ==> !(#[trigger] queue[j]).precedes(#[trigger] queue[i])
}

/// The number of orders at the head of `queue` that `order` does not precede:
/// the place where `order` enters the queue, behind every order of its own
/// key that is already there.
pub open spec fn rank(queue: Seq<Order>, order: Order) -> nat
    decreases queue.len(),
{
    if queue.len() == 0 || order.precedes(queue[0]) {
        0
    } else {
        1 + rank(queue.drop_first(), order)
    }
}

/// `queue` after `amount` is taken off its head order, which leaves the queue
/// when nothing of it is left.
pub open spec fn decremented(queue: Seq<Order>, amount: int) -> Seq<Order> {
    if amount == queue[0].amount {
        queue.drop_first()
    } else {
        queue.update(0, queue[0].with_amount(queue[0].amount - amount))
    }
}

/// An index that splits `queue` into the orders that `order` does not
/// precede and the orders that it does is the rank of `order`.
pub proof fn lemma_rank_is_split(queue: Seq<Order>, order: Order, k: int)
    requires
        0 <= k <= queue.len(),
        forall|i: int| 0 <= i < k ==> !order.precedes(#[trigger] queue[i]),
        forall|i: int| k <= i < queue.len() ==> order.precedes(#[trigger] queue[i]),
    ensures
        rank(queue, order) == k,
    decreases queue.len(),
{
    if queue.len() > 0 && k > 0 {
        let rest = queue.drop_first();
        assert forall|i: int| 0 <= i < k - 1 implies !order.precedes(#[trigger] rest[i]) by {
            assert(rest[i] == queue[i + 1]);
        }
        assert forall|i: int| k - 1 <= i < rest.len() implies order.precedes(
            #[trigger] rest[i],
        ) by {
            assert(rest[i] == queue[i + 1]);
        }
        lemma_rank_is_split(rest, order, k - 1);
    }
}

/// Price-time priority: the head of a queue is its best order. No ask in the
/// queue is cheaper and no bid dearer, and of the orders at the best price
/// none came earlier.
pub proof fn lemma_head_is_best(queue: Seq<Order>, side: Side, i: int)
    requires
        is_queue(queue, side),
        0 <= i < queue.len(),
    ensures
        match side {
            Side::Ask => queue[0].price <= queue[i].price,
            Side::Bid => queue[0].price >= queue[i].price,
        },
        queue[0].price == queue[i].price ==> queue[0].timestamp <= queue[i].timestamp,
{
    if i > 0 {
        assert(!queue[i].precedes(queue[0]));
    }
}

/// A queue is in price-time order all along: of two orders in it, the one
/// ahead has the better price, or the same price and no later a sequence
/// number.
pub proof fn lemma_queue_in_priority_order(queue: Seq<Order>, side: Side, i: int, j: int)
    requires
        is_queue(queue, side),
        0 <= i <= j < queue.len(),
    ensures
        match side {
            Side::Ask => queue[i].price <= queue[j].price,
            Side::Bid => queue[i].price >= queue[j].price,
        },
        queue[i].price == queue[j].price ==> queue[i].timestamp <= queue[j].timestamp,
{
    if i < j {
        assert(!queue[j].precedes(queue[i]));
    }
}

/// An order that enters a queue at its rank leaves it a queue, whatever was
/// resting there: the orders that were there keep their order, and the new
/// one stands behind those that it does not precede and ahead of the others.
pub proof fn lemma_insert_at_rank(queue: Seq<Order>, order: Order)
    requires
        is_queue(queue, order.side),
        order.valid(),
    ensures
        rank(queue, order) <= queue.len(),
        is_queue(queue.insert(rank(queue, order) as int, order), order.side),
        forall|i: int| 0 <= i < rank(queue, order) ==> !order.precedes(#[trigger] queue[i]),
        forall|i: int|
            rank(queue, order) <= i < queue.len() ==> order.precedes(#[trigger] queue[i]),
    decreases queue.len(),
{
    if queue.len() > 0 && !order.precedes(queue[0]) {
        let rest = queue.drop_first();
        lemma_insert_at_rank(rest, order);
        let k = rank(rest, order) as int;
        assert forall|i: int| 0 <= i < k + 1 implies !order.precedes(#[trigger] queue[i]) by {
            if i > 0 {
                assert(queue[i] == rest[i - 1]);
            }
        }
        assert forall|i: int| k + 1 <= i < queue.len() implies order.precedes(
            #[trigger] queue[i],
        ) by {
            assert(queue[i] == rest[i - 1]);
        }
    } else {
        assert forall|i: int| 0 <= i < queue.len() implies order.precedes(
            #[trigger] queue[i],
        ) by {
            if i > 0 {
                assert(!queue[i].precedes(queue[0]));
            }
        }
    }
}

/// Takes `amount` off the head of `queue`, and the head off the queue when
/// nothing of it is left.
fn decrement_head(queue: &mut VecDeque<Order>, Ghost(side): Ghost<Side>, amount: i32)
    requires
        is_queue(old(queue)@, side),
        old(queue)@.len() > 0,
        amount <= old(queue)@[0].amount,
        old(queue)@[0].amount - amount <= i32::MAX,
    ensures
        is_queue(final(queue)@, side),
        final(queue)@ == decremented(old(queue)@, amount as int),
{
    if let Some(head) = queue.pop_front() {
        if amount < head.amount {
            let rest = Order { amount: head.amount - amount, ..head };
            queue.push_front(rest);
            assert(queue@ =~= old(queue)@.update(0, rest));
        }
    }
}

/// Puts `order` into `queue` at its rank, found by bisection.
fn insert_ranked(queue: &mut VecDeque<Order>, order: Order)
    requires
        is_queue(old(queue)@, order.side),
        order.valid(),
    ensures
        is_queue(final(queue)@, order.side),
        final(queue)@ == old(queue)@.insert(rank(old(queue)@, order) as int, order),
{
    let mut low: usize = 0;
    let mut high: usize = queue.len();
    while low < high
        invariant
            queue@ == old(queue)@,
            is_queue(queue@, order.side),
            0 <= low <= high <= queue@.len(),
            forall|i: int| 0 <= i < low ==> !order.precedes(#[trigger] queue@[i]),
            forall|i: int| high <= i < queue@.len() ==> order.precedes(#[trigger] queue@[i]),
        decreases high - low,
    {
        let mid = low + (high - low) / 2;
        if order < queue[mid] {
            high = mid;
        } else {
            low = mid + 1;
        }
    }
    proof {
        lemma_rank_is_split(queue@, order, low as int);
    }
    queue.insert(low, order);
}

/// Two queues of resting orders, bids and asks, each in priority order.
pub struct OrderBook {
    bids: VecDeque<Order>,
    asks: VecDeque<Order>,
}

impl OrderBook {
    /// The orders that rest on `side`, best first.
    pub closed spec fn resting(&self, side: Side) -> Seq<Order> {
        match side {
            Side::Bid => self.bids@,
            Side::Ask => self.asks@,
        }
    }

    /// The invariant of the book: each side is a queue of its own side.
    pub open spec fn wf(&self) -> bool {
        &&& is_queue(self.resting(Side::Bid), Side::Bid)
        &&& is_queue(self.resting(Side::Ask), Side::Ask)
    }

    /// A book with nothing resting on either side.
    pub fn new() -> (book: OrderBook)
        ensures
            book.wf(),
            book.resting(Side::Bid) == Seq::<Order>::empty(),
            book.resting(Side::Ask) == Seq::<Order>::empty(),
    {
        OrderBook { bids: VecDeque::new(), asks: VecDeque::new() }
    }

    /// The number of orders that rest on `side`.
    pub fn len(&self, side: Side) -> (count: usize)
        ensures
            count == self.resting(side).len(),
    {
        match side {
            Side::Bid => self.bids.len(),
            Side::Ask => self.asks.len(),
        }
    }

    /// Whether nothing rests on `side`.
    pub fn is_empty(&self, side: Side) -> (empty: bool)
        ensures
            empty == (self.resting(side).len() == 0),
    {
        self.len(side) == 0
    }

    /// The best order of `side`, left in place: the highest bid or the lowest
    /// ask, and of several at that price the earliest.
    pub fn peek_best(&self, side: Side) -> (best: Option<&Order>)
        ensures
            best == if self.resting(side).len() == 0 {
                None
            } else {
                Some(&self.resting(side)[0])
            },
            self.wf() ==> forall|i: int|
                0 <= i < self.resting(side).len() ==> !(#[trigger] self.resting(side)[i]).precedes(
                    self.resting(side)[0],
                ),
    {
        match side {
            Side::Bid => if self.bids.len() == 0 {
                None
            } else {
                Some(&self.bids[0])
            },
            Side::Ask => if self.asks.len() == 0 {
                None
            } else {
                Some(&self.asks[0])
            },
        }
    }

    /// Removes the best order of `side` and returns it.
    pub fn pop_best(&mut self, side: Side) -> (best: Option<Order>)
        requires
            old(self).wf(),
        ensures
            final(self).wf(),
            final(self).resting(side.opposite()) == old(self).resting(side.opposite()),
            old(self).resting(side).len() == 0 ==> best.is_none() && final(self).resting(side)
                == old(self).resting(side),
            old(self).resting(side).len() > 0 ==> best == Some(old(self).resting(side)[0])
                && final(self).resting(side) == old(self).resting(side).drop_first(),
    {
        match side {
            Side::Bid => self.bids.pop_front(),
            Side::Ask => self.asks.pop_front(),
        }
    }

    /// Takes `amount` off the unfilled quantity of the best order of `side`.
    /// An order of which nothing is left does not rest: it leaves the book.
    pub fn decrement_best(&mut self, side: Side, amount: i32)
        requires
            old(self).wf(),
            old(self).resting(side).len() > 0,
            amount <= old(self).resting(side)[0].amount,
            old(self).resting(side)[0].amount - amount <= i32::MAX,
        ensures
            final(self).wf(),
            final(self).resting(side.opposite()) == old(self).resting(side.opposite()),
            final(self).resting(side) == decremented(old(self).resting(side), amount as int),
    {
        match side {
            Side::Bid => decrement_head(&mut self.bids, Ghost(side), amount),
            Side::Ask => decrement_head(&mut self.asks, Ghost(side), amount),
        }
    }

    /// Rests `order` on its side, behind every order that it does not precede:
    /// a better price goes ahead, and at one price the earlier order stays ahead.
    pub fn insert(&mut self, order: Order)
        requires
            old(self).wf(),
            order.valid(),
        ensures
            final(self).wf(),
            final(self).resting(order.side.opposite()) == old(self).resting(
                order.side.opposite(),
            ),
            final(self).resting(order.side) == old(self).resting(order.side).insert(
                rank(old(self).resting(order.side), order) as int,
                order,
            ),
    {
        match order.side {
            Side::Bid => insert_ranked(&mut self.bids, order),
            Side::Ask => insert_ranked(&mut self.asks, order),
        }
    }

    /// A copy of the orders that rest on `side`, best first.
    pub fn orders(&self, side: Side) -> (orders: Vec<Order>)
        ensures
            orders@ == self.resting(side),
    {
        let queue = match side {
            Side::Bid => &self.bids,
            Side::Ask => &self.asks,
        };
        let mut orders: Vec<Order> = Vec::new();
        let mut i: usize = 0;
        while i < queue.len()
            invariant
                i <= queue@.len(),
                orders@ == queue@.take(i as int),
            decreases queue@.len() - i,
        {
            orders.push(queue[i]);
            assert(queue@.take(i + 1) =~= queue@.take(i as int).push(queue@[i as int]));
            i += 1;
        }
        assert(queue@.take(i as int) =~= queue@);
        orders
    }
}

} // verus!
