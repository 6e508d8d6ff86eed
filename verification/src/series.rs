//! A bounded series of timestamped samples.
//!
//! A series keeps the most recent samples of one metric in the order in
//! which they arrived. Its capacity is a number of samples, not an age: once
//! it is full, each new sample pushes the oldest one out.

use vstd::prelude::*;
use std::collections::VecDeque;

verus! {

/// The number of samples that a series keeps.
pub const CAPACITY: usize = 300;

/// A value and the second at which it was received.
#[derive(Debug, PartialEq, Eq)]
pub struct Sample<V> {
    /// Seconds since the Unix epoch, by the receiver's clock.
    pub timestamp: i64,
    /// What was received.
    pub value: V,
}

/// The samples that a series keeps of everything it was given: the last
/// `CAPACITY` of them, in their order.
pub open spec fn retained<T>(all: Seq<T>) -> Seq<T> {
    if all.len() <= CAPACITY {
        all
    } else {
        all.skip(all.len() - CAPACITY)
    }
}

/// `timestamp` lies in the `span` seconds that end at `now`.
pub open spec fn in_window(timestamp: i64, now: i64, span: i64) -> bool {
    now - span <= timestamp <= now
}

/// The test that a sample lies in the `span` seconds that end at `now`.
pub open spec fn within<V>(now: i64, span: i64) -> spec_fn(Sample<V>) -> bool {
    |s: Sample<V>| in_window(s.timestamp, now, span)
}

/// What the references in `out` point to.
pub open spec fn pointees<V>(out: Seq<&Sample<V>>) -> Seq<Sample<V>> {
    out.map_values(|r: &Sample<V>| *r)
}

/// **Bound.** Whatever a series was given, it keeps at most `CAPACITY`
/// samples: all of them while they are that few, else exactly `CAPACITY`.
pub proof fn lemma_retained_len<T>(all: Seq<T>)
    ensures
        retained(all).len() == if all.len() <= CAPACITY {
            all.len()
        } else {
            CAPACITY as nat
        },
{
}

/// **First in, first out.** Keeping the last samples step by step is the
/// same as keeping the last samples of the whole history: what a series
/// holds after one more sample is what it would hold had it been given the
/// whole history at once.
pub proof fn lemma_retained_push<T>(all: Seq<T>, next: T)
    ensures
        retained(retained(all).push(next)) == retained(all.push(next)),
{
    assert(retained(retained(all).push(next)) =~= retained(all.push(next)));
}

/// What a series holds after it was given `history`, one sample at a time,
/// on top of `start`.
pub open spec fn after_pushes<T>(start: Seq<T>, history: Seq<T>) -> Seq<T>
    decreases history.len(),
{
    if history.len() == 0 {
        start
    } else {
        retained(after_pushes(start, history.drop_last()).push(history.last()))
    }
}

/// **Eviction.** A series that was given a history one sample at a time
/// holds the last `CAPACITY` samples of that history, oldest first; every
/// older sample is gone.
pub proof fn lemma_after_pushes<T>(history: Seq<T>)
    ensures
        after_pushes(Seq::<T>::empty(), history) == retained(history),
    decreases history.len(),
{
    if history.len() == 0 {
    } else {
        let before = history.drop_last();
        lemma_after_pushes(before);
        lemma_retained_push(before, history.last());
        assert(before.push(history.last()) =~= history);
    }
}

/// The most recent samples of one metric, oldest first.
pub struct Series<V> {
    samples: VecDeque<Sample<V>>,
}

impl<V> View for Series<V> {
    type V = Seq<Sample<V>>;

    /// The samples held, oldest first.
    closed spec fn view(&self) -> Seq<Sample<V>> {
        self.samples@
    }
}

impl<V> Series<V> {
    /// The series holds no more samples than its capacity.
    pub open spec fn wf(&self) -> bool {
        self@.len() <= CAPACITY
    }

    /// A series without samples.
    pub fn new() -> (series: Series<V>)
        ensures
            series.wf(),
            series@ == Seq::<Sample<V>>::empty(),
    {
        Series { samples: VecDeque::new() }
    }

    /// The number of samples held.
    pub fn len(&self) -> (n: usize)
        ensures
            n == self@.len(),
    {
        self.samples.len()
    }

    /// Adds a sample behind the others; a series that is full gives up its
    /// oldest sample for it.
    pub fn push(&mut self, timestamp: i64, value: V)
        requires
            old(self).wf(),
        ensures
            final(self).wf(),
            final(self)@ == retained(old(self)@.push(Sample { timestamp, value })),
    {
        if self.samples.len() >= CAPACITY {
            let _ = self.samples.pop_front();
        }
        self.samples.push_back(Sample { timestamp, value });
        assert(self.samples@ =~= retained(old(self)@.push(Sample { timestamp, value })));
    }

    /// The sample at position `index`, counted from the oldest.
    pub fn get(&self, index: usize) -> (sample: Option<&Sample<V>>)
        ensures
            match sample {
                Some(s) => index < self@.len() && *s == self@[index as int],
                None => index >= self@.len(),
            },
    {
        if index < self.samples.len() {
            Some(&self.samples[index])
        } else {
            None
        }
    }

    /// The sample that arrived last, or `None` while there is none.
    pub fn latest(&self) -> (sample: Option<&Sample<V>>)
        ensures
            match sample {
                Some(s) => self@.len() > 0 && *s == self@.last(),
                None => self@.len() == 0,
            },
    {
        let n: usize = self.samples.len();
        if n > 0 {
            Some(&self.samples[n - 1])
        } else {
            None
        }
    }

    /// The samples whose timestamp lies in the `span` seconds that end at
    /// `now`, in the order in which they arrived.
    pub fn window(&self, now: i64, span: i64) -> (out: Vec<&Sample<V>>)
        ensures
            pointees(out@) == self@.filter(within(now, span)),
    {
        let ghost test = within::<V>(now, span);
        let n: usize = self.samples.len();
        let mut out: Vec<&Sample<V>> = Vec::new();
        let mut i: usize = 0;
        proof {
            reveal(Seq::filter);
            assert(self@.take(0) =~= Seq::<Sample<V>>::empty());
            assert(pointees(out@) =~= self@.take(0).filter(test));
        }
        while i < n
            invariant
                i <= n,
                n == self@.len(),
                test == within::<V>(now, span),
                pointees(out@) == self@.take(i as int).filter(test),
            decreases n - i,
        {
            let sample: &Sample<V> = &self.samples[i];
            let ghost done = out@;
            let inside: bool = sample.timestamp <= now && now as i128 - span as i128
                <= sample.timestamp as i128;
            if inside {
                out.push(sample);
            }
            proof {
                let seen = self@.take(i as int);
                assert(self@.take(i + 1) =~= seen.push(self@[i as int]));
                seen.lemma_filter_push(self@[i as int], test);
                assert(test(self@[i as int]) == inside);
                if inside {
                    assert(pointees(out@) =~= pointees(done).push(*sample));
                }
            }
            i += 1;
        }
        assert(self@.take(n as int) =~= self@);
        out
    }
}

} // verus!
