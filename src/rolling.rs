//! A fixed-capacity rolling mean of step counts.
use std::collections::VecDeque;
use vstd::prelude::*;

verus! {

/// Sum of a sequence of samples.
pub open spec fn sum_of(s: Seq<u32>) -> int
    decreases s.len(),
{
    if s.len() == 0 {
        0
    } else {
        sum_of(s.drop_last()) + s.last()
    }
}

/// The window that remains after `v` is pushed onto `s` with room for `size` samples.
pub open spec fn window_after(s: Seq<u32>, v: u32, size: nat) -> Seq<u32> {
    if s.len() + 1 > size {
        s.push(v).subrange(1, s.len() as int + 1)
    } else {
        s.push(v)
    }
}

/// The integer mean of a window; zero when it is empty.
pub open spec fn mean_of(s: Seq<u32>) -> int {
    if s.len() == 0 {
        0
    } else {
        sum_of(s) / (s.len() as int)
    }
}

/// The sum splits into the first sample and the sum of the rest.
pub proof fn lemma_sum_front(s: Seq<u32>)
    requires
        s.len() > 0,
    ensures
        sum_of(s) == s[0] + sum_of(s.subrange(1, s.len() as int)),
    decreases s.len(),
{
    if s.len() == 1 {
        assert(s.subrange(1, 1) =~= Seq::<u32>::empty());
        assert(s.drop_last() =~= Seq::<u32>::empty());
    } else {
        let t = s.subrange(1, s.len() as int);
        lemma_sum_front(s.drop_last());
        assert(s.drop_last().subrange(1, s.len() - 1) =~= t.drop_last());
    }
}

/// A sum of samples is at most the number of samples times the largest sample.
pub proof fn lemma_sum_bounds(s: Seq<u32>)
    ensures
        0 <= sum_of(s) <= s.len() * (u32::MAX as int),
    decreases s.len(),
{
    if s.len() > 0 {
        lemma_sum_bounds(s.drop_last());
    }
}

/// A fixed-capacity window over the most recent samples, with their running sum.
pub struct RollingAverage {
    hist: VecDeque<u32>,
    sum: u128,
    size: usize,
}

impl RollingAverage {
    /// The samples in the window, oldest first.
    pub closed spec fn view(&self) -> Seq<u32> {
        self.hist@
    }

    /// How many samples the window keeps.
    pub closed spec fn capacity(&self) -> nat {
        self.size as nat
    }

    /// The running sum is the sum of the window, which is within capacity.
    pub closed spec fn wf(&self) -> bool {
        &&& self.hist@.len() <= self.size
        &&& self.sum == sum_of(self.hist@)
    }

    /// An empty window that keeps `size` samples.
    pub fn new(size: usize) -> (r: Self)
        ensures
            r.wf(),
            r@ == Seq::<u32>::empty(),
            r.capacity() == size,
    {
        RollingAverage { hist: VecDeque::with_capacity(size), sum: 0, size }
    }

    /// Pushes a sample, dropping the oldest one once the window is over capacity.
    pub fn add(&mut self, val: u32)
        requires
            old(self).wf(),
        ensures
            final(self).wf(),
            final(self).capacity() == old(self).capacity(),
            final(self)@ == window_after(old(self)@, val, old(self).capacity()),
    {
        let ghost before = self.hist@;
        self.hist.push_back(val);
        proof {
            assert(self.hist@.drop_last() =~= before);
            lemma_sum_bounds(self.hist@);
            assert(self.hist@.len() <= usize::MAX + 1);
            assert(self.hist@.len() * (u32::MAX as int) <= u128::MAX) by (nonlinear_arith)
                requires
                    self.hist@.len() <= usize::MAX + 1,
            ;
        }
        self.sum = self.sum + val as u128;
        if self.hist.len() > self.size {
            proof {
                lemma_sum_front(self.hist@);
                lemma_sum_bounds(self.hist@.subrange(1, self.hist@.len() as int));
            }
            let ghost full = self.hist@;
            match self.hist.pop_front() {
                Some(v) => {
                    self.sum = self.sum - v as u128;
                },
                None => {},
            }
            proof {
                assert(self.hist@ =~= full.subrange(1, full.len() as int));
            }
        }
    }

    /// The integer mean of the samples in the window, or zero when it is empty.
    pub fn get(&self) -> (r: u32)
        requires
            self.wf(),
        ensures
            r == mean_of(self@),
    {
        let n = self.hist.len();
        if n == 0 {
            return 0;
        }
        proof {
            lemma_sum_bounds(self.hist@);
            let s = sum_of(self.hist@);
            let k = n as int;
            assert(s / k <= u32::MAX) by (nonlinear_arith)
                requires
                    0 <= s <= k * (u32::MAX as int),
                    k > 0,
            ;
        }
        (self.sum / (n as u128)) as u32
    }
}

} // verus!
