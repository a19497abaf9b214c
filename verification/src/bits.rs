//! A growable set of bits with exact contracts, used by the region engine
//! for its occupied-sector and dirty-sector maps.

use vstd::prelude::*;

verus! {

/// A sequence of bits. The view is the sequence of booleans it holds,
/// index 0 first.
pub struct BitSet {
    bits: Vec<bool>,
}

impl BitSet {
    pub closed spec fn view(&self) -> Seq<bool> {
        self.bits@
    }

    /// A set of `len` bits, all false.
    pub fn new(len: usize) -> (r: Self)
        ensures
            r@ == Seq::new(len as nat, |i: int| false),
    {
        let bits: Vec<bool> = vec![false; len];
        let r = BitSet { bits };
        proof {
            assert(r@ =~= Seq::new(len as nat, |i: int| false));
        }
        r
    }

    pub fn len(&self) -> (r: usize)
        ensures
            r == self@.len(),
    {
        self.bits.len()
    }

    pub fn get(&self, i: usize) -> (r: bool)
        requires
            i < self@.len(),
        ensures
            r == self@[i as int],
    {
        self.bits[i]
    }

    /// Sets every bit of `[start, end)` to `value`; the range must lie
    /// within the current length.
    pub fn fill_range(&mut self, start: usize, end: usize, value: bool)
        requires
            start <= end,
            end <= old(self)@.len(),
        ensures
            final(self)@.len() == old(self)@.len(),
            forall|i: int|
                0 <= i < old(self)@.len() ==> final(self)@[i] == if start <= i < end {
                    value
                } else {
                    old(self)@[i]
                },
    {
        let mut i: usize = start;
        while i < end
            invariant
                start <= i <= end,
                end <= self@.len(),
                self@.len() == old(self)@.len(),
                forall|j: int|
                    0 <= j < self@.len() ==> self@[j] == if start <= j < i {
                        value
                    } else {
                        old(self)@[j]
                    },
            decreases end - i,
        {
            self.bits.set(i, value);
            i = i + 1;
        }
    }

    /// Sets every bit of `[start, end)` to true, growing the set to length
    /// `end` when it is shorter; grown bits outside the range stay out of
    /// reach, so the whole tail is the run.
    pub fn set_range_grow(&mut self, start: usize, end: usize)
        requires
            start <= end,
            start <= old(self)@.len(),
        ensures
            final(self)@.len() == if end > old(self)@.len() {
                end as nat
            } else {
                old(self)@.len()
            },
            forall|i: int|
                0 <= i < final(self)@.len() ==> final(self)@[i] == if start <= i < end {
                    true
                } else {
                    old(self)@[i]
                },
    {
        while self.bits.len() < end
            invariant
                self@.len() >= old(self)@.len(),
                self@.len() <= end || self@.len() == old(self)@.len(),
                forall|j: int|
                    0 <= j < self@.len() ==> self@[j] == if old(self)@.len() <= j {
                        true
                    } else {
                        old(self)@[j]
                    },
            decreases end - self@.len(),
        {
            self.bits.push(true);
        }
        let stop = if end < self.bits.len() {
            end
        } else {
            self.bits.len()
        };
        let ghost mid = self@;
        self.fill_range(start, stop, true);
        proof {
            assert forall|i: int| 0 <= i < self@.len() implies self@[i] == if start <= i < end {
                true
            } else {
                old(self)@[i]
            } by {
                if start <= i < end {
                } else if i < old(self)@.len() {
                    assert(mid[i] == old(self)@[i]);
                }
            }
        }
    }

    /// The index of the first false bit at or after `start`, when one
    /// exists within the current length.
    pub fn first_zero_from(&self, start: usize) -> (r: Option<usize>)
        requires
            start <= self@.len(),
        ensures
            match r {
                Some(i) => start <= i < self@.len() && !self@[i as int] && forall|j: int|
                    start <= j < i ==> self@[j],
                None => forall|j: int| start <= j < self@.len() ==> self@[j],
            },
    {
        let mut i: usize = start;
        while i < self.bits.len()
            invariant
                start <= i <= self@.len(),
                forall|j: int| start <= j < i ==> self@[j],
            decreases self@.len() - i,
        {
            if !self.bits[i] {
                return Some(i);
            }
            i = i + 1;
        }
        None
    }

    /// The index of the first true bit in `[start, end)`, when one exists.
    pub fn first_one_in(&self, start: usize, end: usize) -> (r: Option<usize>)
        requires
            start <= end,
            end <= self@.len(),
        ensures
            match r {
                Some(i) => start <= i < end && self@[i as int] && forall|j: int|
                    start <= j < i ==> !self@[j],
                None => forall|j: int| start <= j < end ==> !self@[j],
            },
    {
        let mut i: usize = start;
        while i < end
            invariant
                start <= i <= end,
                end <= self@.len(),
                forall|j: int| start <= j < i ==> !self@[j],
            decreases end - i,
        {
            if self.bits[i] {
                return Some(i);
            }
            i = i + 1;
        }
        None
    }

    /// Clears every bit.
    pub fn clear_all(&mut self)
        ensures
            final(self)@ == Seq::new(old(self)@.len(), |i: int| false),
    {
        let len = self.bits.len();
        self.fill_range(0, len, false);
        proof {
            assert(self@ =~= Seq::new(old(self)@.len(), |i: int| false));
        }
    }

    /// The indices of the true bits below `end`, in increasing order.
    pub fn ones_below(&self, end: usize) -> (r: Vec<usize>)
        requires
            end <= self@.len(),
        ensures
            forall|k: int| 0 <= k < r@.len() ==> 0 <= #[trigger] r@[k] < end && self@[r@[k] as int],
            forall|i: int| 0 <= i < end && self@[i] ==> r@.contains(i as usize),
            forall|k1: int, k2: int| 0 <= k1 < k2 < r@.len() ==> r@[k1] < r@[k2],
    {
        let mut r: Vec<usize> = Vec::new();
        let mut i: usize = 0;
        while i < end
            invariant
                i <= end,
                end <= self@.len(),
                forall|k: int|
                    0 <= k < r@.len() ==> 0 <= #[trigger] r@[k] < i && self@[r@[k] as int],
                forall|j: int| 0 <= j < i && self@[j] ==> r@.contains(j as usize),
                forall|k1: int, k2: int| 0 <= k1 < k2 < r@.len() ==> r@[k1] < r@[k2],
            decreases end - i,
        {
            if self.bits[i] {
                let ghost prev = r@;
                r.push(i);
                proof {
                    assert(r@[r@.len() - 1] == i);
                    assert forall|j: int| 0 <= j < i + 1 && self@[j] implies r@.contains(
                        j as usize,
                    ) by {
                        if j < i {
                            let k = choose|k: int|
                                0 <= k < prev.len() && #[trigger] prev[k] == j as usize;
                            assert(r@[k] == j as usize);
                        } else {
                            assert(r@[r@.len() - 1] == j as usize);
                        }
                    }
                }
            }
            i = i + 1;
        }
        r
    }
}

} // verus!
