//! The [`Rank`] type: a rank of an abstract polytope, counted from -1.

use vstd::prelude::*;

verus! {

/// The rank of an element or polytope.
///
/// Externally it behaves as an integer from -1 onwards; internally it holds
/// the rank plus one, which is never negative.
#[derive(PartialEq, Eq, Structural, PartialOrd, Ord, Clone, Copy, Debug, Hash)]
pub struct Rank(pub usize);

impl Rank {
    /// The integer this rank stands for.
    pub open spec fn value(self) -> int {
        self.0 as int - 1
    }

    /// Builds a rank from an integer that is at least -1.
    pub fn new(num: isize) -> (r: Self)
        requires
            num >= -1,
        ensures
            r.value() == num,
    {
        if num < 0 {
            Rank(0)
        } else {
            Rank(num as usize + 1)
        }
    }

    /// Builds a rank from a natural number.
    pub fn from_usize(n: usize) -> (r: Self)
        requires
            n < usize::MAX,
        ensures
            r.value() == n,
    {
        Rank(n + 1)
    }

    /// The rank as a natural number; the rank must not be -1.
    pub fn into_usize(self) -> (r: usize)
        requires
            self.value() >= 0,
        ensures
            r == self.value(),
    {
        self.0 - 1
    }

    /// The rank as a signed integer.
    pub fn into_isize(self) -> (r: isize)
        requires
            self.value() <= isize::MAX,
        ensures
            r == self.value(),
    {
        if self.0 == 0 {
            -1
        } else {
            (self.0 - 1) as isize
        }
    }

    /// The rank as a `u32`; the rank must lie between 0 and `u32::MAX`.
    pub fn into_u32(self) -> (r: u32)
        requires
            0 <= self.value() <= u32::MAX,
        ensures
            r == self.value(),
    {
        (self.0 - 1) as u32
    }

    /// The rank as a natural number, or `None` for the rank -1.
    pub fn try_usize(self) -> (r: Option<usize>)
        ensures
            self.value() == -1 <==> r is None,
            r matches Some(n) ==> n == self.value(),
    {
        if self.0 == 0 {
            None
        } else {
            Some(self.0 - 1)
        }
    }

    /// The next rank up.
    pub fn plus_one(self) -> (r: Self)
        requires
            self.0 < usize::MAX,
        ensures
            r.value() == self.value() + 1,
    {
        Rank(self.0 + 1)
    }

    /// The rank plus one, as a natural number.
    pub fn plus_one_usize(self) -> (r: usize)
        ensures
            r == self.value() + 1,
    {
        self.0
    }

    /// The next rank down; the rank must not be -1.
    pub fn minus_one(self) -> (r: Self)
        requires
            self.value() >= 0,
        ensures
            r.value() == self.value() - 1,
    {
        Rank(self.0 - 1)
    }

    /// The next rank down, or `None` for the rank -1.
    pub fn try_minus_one(self) -> (r: Option<Self>)
        ensures
            self.value() == -1 <==> r is None,
            r matches Some(s) ==> s.value() == self.value() - 1,
    {
        if self.0 == 0 {
            None
        } else {
            Some(Rank(self.0 - 1))
        }
    }

    /// The difference of two ranks, or `None` where it would fall below -1.
    pub fn try_sub(&self, rhs: Rank) -> (r: Option<Self>)
        requires
            self.0 < usize::MAX,
        ensures
            r is None <==> self.value() - rhs.value() < -1,
            r matches Some(s) ==> s.value() == self.value() - rhs.value(),
    {
        let lhs = self.0 + 1;
        if lhs < rhs.0 {
            None
        } else {
            Some(Rank(lhs - rhs.0))
        }
    }

    /// The ranks from `lo` up to, not including, `hi`.
    pub fn range_iter(lo: Rank, hi: Rank) -> (r: Vec<Rank>)
        ensures
            r@.len() == if lo.0 <= hi.0 { hi.0 - lo.0 } else { 0 },
            forall|i: int| 0 <= i < r@.len() ==> #[trigger] r@[i].value() == lo.value() + i,
    {
        let mut out: Vec<Rank> = Vec::new();
        let mut k: usize = lo.0;
        while k < hi.0
            invariant
                lo.0 <= k,
                k <= hi.0 || k == lo.0,
                out@.len() == k - lo.0,
                forall|i: int| 0 <= i < out@.len() ==> #[trigger] out@[i].value() == lo.value() + i,
            decreases hi.0 - k,
        {
            out.push(Rank(k));
            k += 1;
        }
        out
    }

    /// The ranks from `lo` up to and including `hi`.
    pub fn range_inclusive_iter(lo: Rank, hi: Rank) -> (r: Vec<Rank>)
        requires
            hi.0 < usize::MAX,
        ensures
            r@.len() == if lo.0 <= hi.0 { hi.0 + 1 - lo.0 } else { 0 },
            forall|i: int| 0 <= i < r@.len() ==> #[trigger] r@[i].value() == lo.value() + i,
    {
        Rank::range_iter(lo, Rank(hi.0 + 1))
    }

    /// The sum of two ranks.
    pub fn add(self, rhs: Rank) -> (r: Self)
        requires
            self.value() + rhs.value() >= -1,
            self.0 + rhs.0 <= usize::MAX,
        ensures
            r.value() == self.value() + rhs.value(),
    {
        Rank(self.0 + rhs.0 - 1)
    }

    /// The difference of two ranks.
    pub fn sub(self, rhs: Rank) -> (r: Self)
        requires
            self.value() - rhs.value() >= -1,
            self.0 < usize::MAX,
        ensures
            r.value() == self.value() - rhs.value(),
    {
        Rank(self.0 + 1 - rhs.0)
    }
}

} // verus!
