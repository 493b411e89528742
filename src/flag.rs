//! Flags, their orientations, and the flag-change operation.

use vstd::prelude::*;
use crate::abs::{Abstract, common, common_spec, lemma_common_contains, lemma_common_increasing};
use crate::rank::Rank;

verus! {

/// A flag of an incidence structure: the index of one element of each rank
/// from 0 to rank - 1. The minimal and maximal elements are left implicit.
#[derive(PartialEq, Eq, Hash, PartialOrd, Ord, Debug)]
pub struct Flag(pub Vec<usize>);

impl View for Flag {
    type V = Seq<usize>;

    open spec fn view(&self) -> Seq<usize> {
        self.0@
    }
}

/// The entry of `f` at rank `r`, or 0 where `r` lies outside the flag: the
/// index of the implicit minimal or maximal element.
pub open spec fn entry_or_zero(f: Seq<usize>, r: int) -> usize {
    if 0 <= r < f.len() {
        f[r]
    } else {
        0
    }
}

impl Abstract {
    /// `f` is a flag: one element per rank, each a subelement of the next.
    pub open spec fn is_flag(&self, f: Seq<usize>) -> bool {
        &&& f.len() == self.rank()
        &&& forall|r: int|
            0 <= r < f.len() ==> #[trigger] f[r] < self.count(r) && self.subs(
                r + 1,
                entry_or_zero(f, r + 1) as int,
            ).contains(f[r])
    }

    /// The elements of rank `r` that lie between the elements of `f` of ranks
    /// `r - 1` and `r + 1`.
    pub open spec fn section(&self, f: Seq<usize>, r: int) -> Seq<usize> {
        common_spec(
            self.sups(r - 1, entry_or_zero(f, r - 1) as int),
            self.subs(r + 1, entry_or_zero(f, r + 1) as int),
        )
    }

    /// The flag obtained from `f` by the flag change at rank `r`: its entry at
    /// rank `r` becomes the other element of the section.
    pub open spec fn change_spec(&self, f: Seq<usize>, r: int) -> Seq<usize> {
        let c = self.section(f, r);
        f.update(
            r,
            if f[r] == c[0] {
                c[1]
            } else {
                c[0]
            },
        )
    }
}

/// A flag change keeps a flag a flag, and the section it goes through holds
/// two elements, one of them the flag's own.
pub proof fn lemma_change_valid(p: &Abstract, f: Seq<usize>, r: int)
    requires
        p.wf(),
        p.is_flag(f),
        0 <= r < p.rank(),
    ensures
        p.section(f, r).len() == 2,
        p.section(f, r)[0] < p.section(f, r)[1],
        p.section(f, r).contains(f[r]),
        p.is_flag(p.change_spec(f, r)),
        p.section(p.change_spec(f, r), r) == p.section(f, r),
        p.change_spec(f, r)[r] != f[r],
{
    let a = entry_or_zero(f, r - 1) as int;
    let b = entry_or_zero(f, r + 1) as int;
    let lo = p.sups(r - 1, a);
    let hi = p.subs(r + 1, b);
    assert(0 <= a < p.count(r - 1));
    assert(0 <= b < p.count(r + 1));
    assert(f[r] < p.count(r) && hi.contains(f[r]));
    assert(p.element_ok(r, f[r] as int));
    assert(p.subs(r, f[r] as int).contains(a as usize)) by {
        if r == 0 {
            assert(p.subs(r, f[r] as int)[0] < p.count(-1));
        } else {
            assert(f[r - 1] < p.count(r - 1));
        }
    }
    assert(p.dual_ok(r, f[r] as int, a));
    assert(lo.contains(f[r]));
    lemma_common_contains(lo, hi, f[r]);
    let c = common_spec(lo, hi);
    assert(p.diamond_ok(r, a, b));
    assert(p.element_ok(r - 1, a));
    lemma_common_increasing(lo, hi);
    assert(c[0] < c[1]);
    let x = if f[r] == c[0] {
        c[1]
    } else {
        c[0]
    };
    assert(c.contains(x));
    lemma_common_contains(lo, hi, x);
    let k = choose|k: int| 0 <= k < lo.len() && lo[k] == x;
    assert(x < p.count(r));
    let g = p.change_spec(f, r);
    assert(g == f.update(r, x));
    assert forall|s: int| 0 <= s < g.len() implies #[trigger] g[s] < p.count(s) && p.subs(
        s + 1,
        entry_or_zero(g, s + 1) as int,
    ).contains(g[s]) by {
        assert(f[s] < p.count(s) && p.subs(s + 1, entry_or_zero(f, s + 1) as int).contains(f[s]));
        if s == r - 1 {
            assert(p.dual_ok(r, x as int, a));
        }
    }
    assert(p.section(g, r) =~= c);
}

/// Applying the same flag change twice gives back the flag.
pub proof fn lemma_change_involution(p: &Abstract, f: Seq<usize>, r: int)
    requires
        p.wf(),
        p.is_flag(f),
        0 <= r < p.rank(),
    ensures
        p.change_spec(p.change_spec(f, r), r) == f,
{
    lemma_change_valid(p, f, r);
    let c = p.section(f, r);
    let k = choose|k: int| 0 <= k < c.len() && c[k] == f[r];
    assert(p.change_spec(p.change_spec(f, r), r) =~= f);
}

impl Flag {
    /// The entry of the flag at a rank, or 0 at a rank outside the flag (the
    /// implicit minimal and maximal elements).
    pub fn get_or_zero(&self, rank: Rank) -> (r: usize)
        ensures
            r == entry_or_zero(self@, rank.value()),
    {
        match rank.try_usize() {
            Some(k) => {
                if k < self.0.len() {
                    self.0[k]
                } else {
                    0
                }
            },
            None => 0,
        }
    }

    /// A copy of the flag.
    pub fn duplicate(&self) -> (r: Flag)
        ensures
            r@ == self@,
    {
        let v = self.0.clone();
        assert(v@ =~= self.0@);
        Flag(v)
    }

    /// Applies the flag change at rank `r` in place.
    pub fn change_mut(&mut self, polytope: &Abstract, r: usize)
        requires
            polytope.wf(),
            polytope.is_flag(old(self)@),
            r < polytope.rank(),
        ensures
            final(self)@ == polytope.change_spec(old(self)@, r as int),
            polytope.is_flag(final(self)@),
    {
        proof {
            lemma_change_valid(polytope, self@, r as int);
        }
        let n_ranks = polytope.ranks.len();
        assert(r + 2 < n_ranks);
        let below_idx = if r == 0 {
            0
        } else {
            self.0[r - 1]
        };
        let above_idx = if r + 1 < self.0.len() {
            self.0[r + 1]
        } else {
            0
        };
        assert(polytope.element_ok(r - 1, below_idx as int));
        assert(polytope.element_ok(r + 1, above_idx as int));
        let below = &polytope.ranks[r][below_idx];
        let above = &polytope.ranks[r + 2][above_idx];
        let common = common(&below.sups, &above.subs);
        if self.0[r] == common[0] {
            self.0.set(r, common[1]);
        } else {
            self.0.set(r, common[0]);
        }
    }

    /// The flag obtained by the flag change at rank `r`.
    pub fn change(&self, polytope: &Abstract, r: usize) -> (res: Flag)
        requires
            polytope.wf(),
            polytope.is_flag(self@),
            r < polytope.rank(),
        ensures
            res@ == polytope.change_spec(self@, r as int),
            polytope.is_flag(res@),
    {
        let mut clone = self.duplicate();
        clone.change_mut(polytope, r);
        clone
    }
}

/// The parity of a flag, which flips on every flag change.
#[derive(Clone, Copy, Debug, Hash, PartialEq, Eq, Structural)]
pub enum Orientation {
    /// Even parity.
    Even,
    /// Odd parity.
    Odd,
}

impl Orientation {
    /// The opposite parity.
    pub open spec fn flipped(self) -> Orientation {
        match self {
            Orientation::Even => Orientation::Odd,
            Orientation::Odd => Orientation::Even,
        }
    }

    /// The opposite parity.
    pub fn flip(&self) -> (r: Orientation)
        ensures
            r == self.flipped(),
            r != *self,
    {
        match self {
            Orientation::Even => Orientation::Odd,
            Orientation::Odd => Orientation::Even,
        }
    }
}

/// Even parity is the default.
impl Default for Orientation {
    fn default() -> (r: Orientation)
        ensures
            r == Orientation::Even,
    {
        Orientation::Even
    }
}

/// A flag together with an orientation.
///
/// When the polytope is not orientable, the orientation carries no meaning.
pub struct OrientedFlag {
    /// The element indices of the flag.
    pub flag: Flag,
    /// The parity of the flag.
    pub orientation: Orientation,
}

impl From<Flag> for OrientedFlag {
    /// Gives a flag the default (even) orientation.
    fn from(flag: Flag) -> (r: OrientedFlag) {
        OrientedFlag { flag, orientation: Orientation::Even }
    }
}

impl vstd::std_specs::convert::FromSpecImpl<Flag> for OrientedFlag {
    open spec fn obeys_from_spec() -> bool {
        true
    }

    open spec fn from_spec(flag: Flag) -> OrientedFlag {
        OrientedFlag { flag, orientation: Orientation::Even }
    }
}

impl OrientedFlag {
    /// A copy of the oriented flag.
    pub fn duplicate(&self) -> (r: OrientedFlag)
        ensures
            r.flag@ == self.flag@,
            r.orientation == self.orientation,
    {
        OrientedFlag { flag: self.flag.duplicate(), orientation: self.orientation }
    }

    /// Applies the flag change at rank `r`, flipping the orientation.
    pub fn change(&self, polytope: &Abstract, r: usize) -> (res: OrientedFlag)
        requires
            polytope.wf(),
            polytope.is_flag(self.flag@),
            r < polytope.rank(),
        ensures
            res.flag@ == polytope.change_spec(self.flag@, r as int),
            polytope.is_flag(res.flag@),
            res.orientation == self.orientation.flipped(),
    {
        OrientedFlag { flag: self.flag.change(polytope, r), orientation: self.orientation.flip() }
    }
}

/// A flag change flips the orientation, and the same change applied twice
/// gives back both the flag and its orientation.
pub proof fn lemma_oriented_change_twice(p: &Abstract, f: Seq<usize>, o: Orientation, r: int)
    requires
        p.wf(),
        p.is_flag(f),
        0 <= r < p.rank(),
    ensures
        o.flipped() != o,
        p.change_spec(p.change_spec(f, r), r) == f,
        o.flipped().flipped() == o,
{
    lemma_change_involution(p, f, r);
}

} // verus!
