//! A bounded queue of samples that forgets the oldest when it is full.

use std::collections::VecDeque;
use vstd::prelude::*;

verus! {

/// The last `n` items of `s`, or all of `s` where it holds no more than `n`.
pub open spec fn keep_last(s: Seq<i16>, n: nat) -> Seq<i16> {
    if s.len() <= n {
        s
    } else {
        s.subrange(s.len() - n, s.len() as int)
    }
}

/// Keeping the last `n` never yields more than `n` items, and what it
/// yields is the end of `s`, in the order of `s`.
pub proof fn lemma_keep_last_is_suffix(s: Seq<i16>, n: nat)
    ensures
        keep_last(s, n).len() <= n,
        keep_last(s, n).len() <= s.len(),
        keep_last(s, n).len() == if s.len() <= n {
            s.len()
        } else {
            n
        },
        forall|i: int|
            0 <= i < keep_last(s, n).len() ==> #[trigger] keep_last(s, n)[i] == s[s.len()
                - keep_last(s, n).len() + i],
{
}

/// Trimming in between changes nothing: feeding `a` and then `b` leaves
/// what feeding `a + b` at once leaves.
pub proof fn lemma_keep_last_compose(s: Seq<i16>, b: Seq<i16>, n: nat)
    ensures
        keep_last(keep_last(s, n) + b, n) == keep_last(s + b, n),
{
    let l = keep_last(keep_last(s, n) + b, n);
    let r = keep_last(s + b, n);
    assert(l.len() == r.len());
    assert forall|i: int| 0 <= i < l.len() implies l[i] == r[i] by {
        lemma_keep_last_is_suffix(s, n);
    }
    assert(l =~= r);
}

/// Samples of one speaker, at most `capacity` of them, with the time of
/// the last write.
pub struct RingBuffer {
    samples: VecDeque<i16>,
    capacity: usize,
    last_activity: u64,
}

impl View for RingBuffer {
    type V = Seq<i16>;

    closed spec fn view(&self) -> Seq<i16> {
        self.samples@
    }
}

impl RingBuffer {
    /// The most samples this buffer holds.
    pub closed spec fn spec_capacity(&self) -> nat {
        self.capacity as nat
    }

    /// When samples were last written.
    pub closed spec fn spec_last_activity(&self) -> u64 {
        self.last_activity
    }

    /// The buffer holds no more than its capacity.
    pub open spec fn wf(&self) -> bool {
        self@.len() <= self.spec_capacity()
    }

    /// An empty buffer for `capacity` samples, created at `now`.
    pub fn new(capacity: usize, now: u64) -> (r: RingBuffer)
        ensures
            r.wf(),
            r@ == Seq::<i16>::empty(),
            r.spec_capacity() == capacity,
            r.spec_last_activity() == now,
    {
        RingBuffer { samples: VecDeque::new(), capacity, last_activity: now }
    }

    /// The most samples this buffer holds.
    pub fn capacity(&self) -> (r: usize)
        ensures
            r == self.spec_capacity(),
    {
        self.capacity
    }

    /// When samples were last written.
    pub fn last_activity(&self) -> (r: u64)
        ensures
            r == self.spec_last_activity(),
    {
        self.last_activity
    }

    /// The number of samples held.
    pub fn len(&self) -> (r: usize)
        ensures
            r == self@.len(),
    {
        self.samples.len()
    }

    /// Tells whether no samples are held.
    pub fn is_empty(&self) -> (r: bool)
        ensures
            r == (self@.len() == 0),
    {
        self.samples.len() == 0
    }

    /// Appends one sample; a full buffer first drops its oldest.
    pub fn push(&mut self, x: i16)
        requires
            old(self).wf(),
        ensures
            final(self).wf(),
            final(self)@ == keep_last(old(self)@.push(x), old(self).spec_capacity()),
            final(self).spec_capacity() == old(self).spec_capacity(),
            final(self).spec_last_activity() == old(self).spec_last_activity(),
    {
        if self.capacity == 0 {
            assert(self.samples@ =~= keep_last(old(self)@.push(x), 0));
            return ;
        }
        if self.samples.len() == self.capacity {
            let _ = self.samples.pop_front();
        }
        self.samples.push_back(x);
        assert(self.samples@ =~= keep_last(old(self)@.push(x), old(self).spec_capacity()));
    }

    /// Appends `xs` in order at time `now`, dropping from the front
    /// whatever no longer fits.
    pub fn extend(&mut self, xs: &[i16], now: u64)
        requires
            old(self).wf(),
        ensures
            final(self).wf(),
            final(self)@ == keep_last(old(self)@ + xs@, old(self).spec_capacity()),
            final(self).spec_capacity() == old(self).spec_capacity(),
            final(self).spec_last_activity() == now,
    {
        let n = xs.len();
        let mut i: usize = 0;
        assert(old(self)@ + xs@.subrange(0, 0) =~= old(self)@);
        while i < n
            invariant
                n == xs@.len(),
                i <= n,
                self.wf(),
                self.spec_capacity() == old(self).spec_capacity(),
                self@ == keep_last(old(self)@ + xs@.subrange(0, i as int), self.spec_capacity()),
            decreases n - i,
        {
            proof {
                let fed = old(self)@ + xs@.subrange(0, i as int);
                lemma_keep_last_compose(fed, seq![xs@[i as int]], self.spec_capacity());
                assert(fed + seq![xs@[i as int]] =~= old(self)@ + xs@.subrange(0, i + 1));
                assert(keep_last(fed, self.spec_capacity()).push(xs@[i as int]) =~= keep_last(
                    fed,
                    self.spec_capacity(),
                ) + seq![xs@[i as int]]);
            }
            self.push(xs[i]);
            i = i + 1;
        }
        assert(xs@.subrange(0, n as int) =~= xs@);
        self.last_activity = now;
    }

    /// A copy of the samples held, oldest first. The buffer keeps them.
    pub fn snapshot(&self) -> (r: Vec<i16>)
        ensures
            r@ == self@,
    {
        let n = self.samples.len();
        let mut r: Vec<i16> = Vec::with_capacity(n);
        let mut i: usize = 0;
        while i < n
            invariant
                n == self.samples@.len(),
                i <= n,
                r@ == self.samples@.subrange(0, i as int),
            decreases n - i,
        {
            r.push(self.samples[i]);
            assert(r@ =~= self.samples@.subrange(0, i + 1));
            i = i + 1;
        }
        assert(self.samples@.subrange(0, n as int) =~= self.samples@);
        r
    }
}

} // verus!
