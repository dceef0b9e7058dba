//! A lazy, truncatable, random-access window over a forward-only producer.
//!
//! The buffer pulls elements from the producer on demand, retains only a
//! contiguous window of them, and lets the history before `window_offset`
//! be discarded once the caller promises never to look behind it again.

use vstd::prelude::*;

verus! {

use std::collections::VecDeque;

/// What a read of index `idx` reports once `all` is the producer's full
/// output: the element itself, or `None` past the end of the sequence.
pub open spec fn spec_get<V>(all: Seq<V>, idx: int) -> Option<V> {
    if 0 <= idx < all.len() {
        Some(all[idx])
    } else {
        None
    }
}

/// A random-access cursor over a forward-only producer.
///
/// The producer is modelled as a vector read strictly left to right:
/// `pulled` elements have been taken from it so far, and of those only
/// `window` (the ones at indices `window_offset..pulled`) are retained.
pub struct DynamicWindowIterator<V> {
    producer: Vec<V>,
    pulled: usize,
    window: VecDeque<V>,
    window_offset: usize,
}

impl<V: Copy> DynamicWindowIterator<V> {
    /// The producer's full output, the sequence the buffer windows over.
    pub closed spec fn all(&self) -> Seq<V> {
        self.producer@
    }

    /// Index of the first element still retained; reads below it are invalid.
    pub closed spec fn offset(&self) -> int {
        self.window_offset as int
    }

    /// How many elements have been pulled from the producer so far.
    pub closed spec fn pulled(&self) -> int {
        self.pulled as int
    }

    /// Internal consistency: the window is exactly the pulled-but-not-yet
    /// discarded contiguous run of the producer's output.
    pub closed spec fn wf(&self) -> bool {
        &&& self.window_offset + self.window@.len() == self.pulled
        &&& self.pulled <= self.producer@.len()
        &&& self.window@ == self.producer@.subrange(self.window_offset as int, self.pulled as int)
    }

    /// Wrap a producer, with nothing pulled and nothing discarded.
    pub fn from_iter(producer: Vec<V>) -> (r: DynamicWindowIterator<V>)
        ensures
            r.wf(),
            r.all() == producer@,
            r.offset() == 0,
            r.pulled() == 0,
    {
        let r = DynamicWindowIterator {
            producer,
            pulled: 0,
            window: VecDeque::new(),
            window_offset: 0,
        };
        proof {
            assert(r.window@ =~= r.producer@.subrange(0, 0));
        }
        r
    }

    /// Pull from the producer until the elements at indices below `idx` are
    /// all buffered, or the producer is exhausted; never rewinds.
    pub fn read_till(&mut self, idx: usize)
        requires
            old(self).wf(),
        ensures
            final(self).wf(),
            final(self).all() == old(self).all(),
            final(self).offset() == old(self).offset(),
            final(self).pulled() == spec_max(old(self).pulled(), spec_min(idx as int, old(self).all().len() as int)),
    {
        while self.pulled < idx && self.pulled < self.producer.len()
            invariant
                self.wf(),
                self.all() == old(self).all(),
                self.offset() == old(self).offset(),
                old(self).pulled() <= self.pulled() <= spec_max(old(self).pulled(), spec_min(idx as int, self.all().len() as int)),
            decreases self.producer@.len() - self.pulled,
        {
            let item = self.producer[self.pulled];
            self.window.push_back(item);
            self.pulled = self.pulled + 1;
            proof {
                assert(self.window@ =~= self.producer@.subrange(self.window_offset as int, self.pulled as int));
            }
        }
    }

    /// The element at `idx`, pulling as far as needed; `None` once the
    /// producer ends before reaching it. Reading below the window offset is
    /// a contract violation, ruled out by the precondition.
    pub fn get(&mut self, idx: usize) -> (r: Option<&V>)
        requires
            old(self).wf(),
            old(self).offset() <= idx,
            idx < usize::MAX,
        ensures
            final(self).wf(),
            final(self).all() == old(self).all(),
            final(self).offset() == old(self).offset(),
            final(self).pulled() == spec_max(old(self).pulled(), spec_min(idx + 1, old(self).all().len() as int)),
            r is Some <==> spec_get(old(self).all(), idx as int) is Some,
            r matches Some(v) ==> spec_get(old(self).all(), idx as int) == Some(*v),
    {
        self.read_till(idx + 1);
        if idx < self.pulled {
            Some(&self.window[idx - self.window_offset])
        } else {
            None
        }
    }

    /// Discard all retained history strictly before `idx`, advancing the
    /// window offset; the producer's output and everything at or past `idx`
    /// are untouched. The offset never moves backward.
    pub fn truncate(&mut self, idx: usize)
        requires
            old(self).wf(),
            old(self).offset() <= idx,
        ensures
            final(self).wf(),
            final(self).all() == old(self).all(),
            final(self).pulled() == spec_max(old(self).pulled(), spec_min(idx as int, old(self).all().len() as int)),
            final(self).offset() == spec_min(idx as int, final(self).pulled()),
            old(self).offset() <= final(self).offset(),
    {
        self.read_till(idx);
        while self.window_offset < idx && self.window.len() > 0
            invariant
                self.wf(),
                self.all() == old(self).all(),
                self.pulled() == spec_max(old(self).pulled(), spec_min(idx as int, old(self).all().len() as int)),
                old(self).offset() <= self.offset() <= spec_max(old(self).offset(), spec_min(idx as int, self.pulled())),
            decreases idx - self.window_offset,
        {
            let popped = self.window.pop_front();
            self.window_offset = self.window_offset + 1;
            proof {
                assert(self.window@ =~= self.producer@.subrange(self.window_offset as int, self.pulled as int));
            }
        }
    }
}

/// The smaller of two mathematical integers.
pub open spec fn spec_min(a: int, b: int) -> int {
    if a <= b {
        a
    } else {
        b
    }
}

/// The larger of two mathematical integers.
pub open spec fn spec_max(a: int, b: int) -> int {
    if a >= b {
        a
    } else {
        b
    }
}

/// Window buffer law: a prior `truncate(t)` cannot affect what `get(idx)`
/// reports for any `idx >= t`. Truncation preserves the producer's output
/// sequence, and the report of `get` is a function of that sequence and the
/// index alone; moreover the truncated buffer still admits the read, since
/// its offset stays at or below `t`.
pub proof fn lemma_get_unaffected_by_truncate<V: Copy>(
    pre: DynamicWindowIterator<V>,
    post: DynamicWindowIterator<V>,
    t: int,
    idx: int,
)
    requires
        pre.wf(),
        post.wf(),
        // what `truncate(t)` ensures of the buffer it leaves behind:
        post.all() == pre.all(),
        post.offset() == spec_min(t, post.pulled()),
        // the law's premise: the read is at or past the truncation point
        t <= idx,
    ensures
        spec_get(post.all(), idx) == spec_get(pre.all(), idx),
        post.offset() <= idx,
{
}

/// Window buffer law: once the producer is exhausted before reaching some
/// index, every read at or beyond that index reports end of sequence.
pub proof fn lemma_exhausted_stays_exhausted<V>(all: Seq<V>, idx0: int, idx: int)
    requires
        spec_get(all, idx0) is None,
        0 <= idx0 <= idx,
    ensures
        spec_get(all, idx) is None,
{
}

} // verus!
