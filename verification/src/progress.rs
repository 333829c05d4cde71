//! Progress reporting: the completion percentage a transfer publishes
//! after each step, and the single-subscriber bus that carries it.

use vstd::prelude::*;
use vstd::arithmetic::div_mod::{lemma_div_by_multiple, lemma_div_is_ordered};
use vstd::arithmetic::mul::lemma_mul_inequality;

verus! {

/// The completion percentage of `part` out of `total`, rounded down.
pub open spec fn percent_of(part: int, total: int) -> int {
    part * 100 / total
}

/// A percentage never moves backwards as work accumulates.
pub proof fn lemma_percent_monotonic(less: int, more: int, total: int)
    requires
        0 <= less <= more,
        total > 0,
    ensures
        percent_of(less, total) <= percent_of(more, total),
{
    lemma_mul_inequality(less, more, 100);
    lemma_div_is_ordered(less * 100, more * 100, total);
}

/// The cumulative completion sample: `part * 100 / total`, which reaches
/// exactly 100 when all of `total` is processed.
pub fn progress_percent(part: u64, total: u64) -> (r: u32)
    requires
        total > 0,
        part <= total,
    ensures
        r as int == percent_of(part as int, total as int),
        r <= 100,
        part == total ==> r == 100,
{
    let v: u128 = (part as u128) * 100 / (total as u128);
    proof {
        lemma_mul_inequality(part as int, total as int, 100);
        lemma_div_is_ordered(part as int * 100, total as int * 100, total as int);
        lemma_div_by_multiple(100, total as int);
    }
    v as u32
}

/// The single-slot progress bus: at most one subscriber at a time, whose
/// pending samples sit in a bounded queue that the consumer drains.
/// Publishing with no subscriber drops the sample; progress is
/// observational only, never load-bearing.
pub struct ProgressBus {
    pub subscriber: Option<Vec<u32>>,
}

impl ProgressBus {
    /// A bus with no subscriber.
    pub fn new() -> (r: ProgressBus)
        ensures
            r.subscriber is None,
    {
        ProgressBus { subscriber: None }
    }

    /// Register the one subscriber, replacing any previous one, whose
    /// pending samples are discarded and never delivered.
    pub fn subscribe(&mut self)
        ensures
            final(self).subscriber matches Some(q) && q@ == Seq::<u32>::empty(),
    {
        self.subscriber = Some(Vec::new());
    }

    /// Best-effort, non-blocking send: append the sample for the current
    /// subscriber, or drop it when nobody listens.
    pub fn publish(&mut self, sample: u32)
        ensures
            old(self).subscriber is None ==> final(self).subscriber is None,
            old(self).subscriber matches Some(q) ==> (final(self).subscriber matches Some(q2)
                && q2@ == q@.push(sample)),
    {
        match &mut self.subscriber {
            None => {},
            Some(queue) => {
                queue.push(sample);
            },
        }
    }

    /// Hand the pending samples, in publish order, to the subscriber and
    /// leave its queue empty.  Without a subscriber nothing is delivered.
    pub fn drain(&mut self) -> (r: Vec<u32>)
        ensures
            old(self).subscriber is None ==> (r@ == Seq::<u32>::empty()
                && final(self).subscriber is None),
            old(self).subscriber matches Some(q) ==> (r@ == q@
                && (final(self).subscriber matches Some(q2) && q2@ == Seq::<u32>::empty())),
    {
        match self.subscriber.take() {
            None => Vec::new(),
            Some(queue) => {
                self.subscriber = Some(Vec::new());
                queue
            },
        }
    }
}

} // verus!
