//! The pending queue of parsed transactions: an ordered buffer with a
//! producer-finished flag. Consumers are done once the producer has finished
//! and the buffer is empty.

use vstd::prelude::*;

use crate::models::transaction::{Transaction, TransactionQueue, TransactionView};

verus! {

/// Abstraction of an incoming stream of transactions.
pub struct TransactionStream {
    alive: bool,
    transaction_queue: TransactionQueue,
}

impl TransactionStream {
    /// The transactions waiting to be processed, in arrival order.
    pub closed spec fn queue(&self) -> Seq<TransactionView> {
        self.transaction_queue@.map_values(|t: Transaction| t@)
    }

    /// False once the producer has marked the stream finished: nothing will
    /// ever arrive after that.
    pub closed spec fn is_alive(&self) -> bool {
        self.alive
    }

    /// Creates a new, live stream with nothing queued yet.
    pub fn new() -> (r: Self)
        ensures
            r.is_alive(),
            r.queue() =~= Seq::<TransactionView>::empty(),
    {
        Self { alive: true, transaction_queue: Vec::new() }
    }

    /// Queues one parsed transaction (producer side).
    pub fn push(&mut self, transaction: Transaction)
        requires
            old(self).is_alive(),
        ensures
            final(self).is_alive(),
            final(self).queue() == old(self).queue().push(transaction@),
    {
        self.transaction_queue.push(transaction);
        proof {
            assert(self.transaction_queue@.map_values(|t: Transaction| t@) =~= old(
                self,
            ).transaction_queue@.map_values(|t: Transaction| t@).push(transaction@));
        }
    }

    /// Marks the stream finished: the producer will push nothing more.
    pub fn finish(&mut self)
        ensures
            !final(self).is_alive(),
            final(self).queue() == old(self).queue(),
    {
        self.alive = false;
    }

    /// Pops the oldest queued transaction, or returns `None` right away when
    /// nothing is queued; it never suspends.
    pub fn next(&mut self) -> (r: Option<Transaction>)
        ensures
            final(self).is_alive() == old(self).is_alive(),
            old(self).queue().len() == 0 ==> r is None && final(self).queue() == old(self).queue(),
            old(self).queue().len() > 0 ==> r is Some && r->0@ == old(self).queue()[0]
                && final(self).queue() == old(self).queue().drop_first(),
    {
        if self.transaction_queue.len() == 0 {
            return None;
        }
        let t = self.transaction_queue.remove(0);
        proof {
            assert(self.transaction_queue@.map_values(|x: Transaction| x@) =~= old(
                self,
            ).transaction_queue@.map_values(|x: Transaction| x@).drop_first());
            assert(old(self).queue()[0] == t@);
        }
        Some(t)
    }

    /// Tells if the stream is still alive, that is, whether the producer may
    /// still push transactions.
    pub fn alive(&self) -> (r: bool)
        ensures
            r == self.is_alive(),
    {
        self.alive
    }

    /// Returns true if the transaction queue is currently empty.
    pub fn empty(&self) -> (r: bool)
        ensures
            r == (self.queue().len() == 0),
    {
        self.transaction_queue.len() == 0
    }
}

} // verus!
