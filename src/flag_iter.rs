//! Enumeration of every flag of an incidence structure, in a fixed order.
//!
//! A flag is described by its positions: the position of each of its
//! elements in the subelement list of the element one rank above. The
//! positions run like an odometer whose lowest rank turns fastest.

use vstd::prelude::*;
use crate::abs::Abstract;
use crate::flag::{Flag, entry_or_zero};

verus! {

impl Abstract {
    /// The index of the rank-`r` element of the flag with positions `idx`:
    /// start at the maximal element and take, at each rank, the subelement
    /// at the given position.
    pub open spec fn decoded_entry(&self, idx: Seq<usize>, r: int) -> int
        decreases self.rank() - r,
    {
        if r >= self.rank() {
            0
        } else {
            self.subs(r + 1, self.decoded_entry(idx, r + 1))[idx[r] as int] as int
        }
    }

    /// The flag with positions `idx`.
    pub open spec fn decoded(&self, idx: Seq<usize>) -> Seq<usize> {
        Seq::new(idx.len(), |r: int| self.decoded_entry(idx, r) as usize)
    }

    /// How many positions there are at rank `r`, given the positions above.
    pub open spec fn radix(&self, idx: Seq<usize>, r: int) -> int {
        self.subs(r + 1, self.decoded_entry(idx, r + 1)).len() as int
    }

    /// The positions from rank `s` up are in range.
    pub open spec fn valid_from(&self, idx: Seq<usize>, s: int) -> bool {
        &&& idx.len() == self.rank()
        &&& forall|t: int| s <= t < self.rank() ==> #[trigger] idx[t] < self.radix(idx, t)
    }

    /// The position at rank `r` is the lowest one that can still turn.
    pub open spec fn is_carry(&self, idx: Seq<usize>, r: int) -> bool {
        &&& 0 <= r < idx.len()
        &&& idx[r] + 1 < self.radix(idx, r)
        &&& forall|s: int| 0 <= s < r ==> #[trigger] idx[s] + 1 >= self.radix(idx, s)
    }

    /// The positions that follow `idx` once rank `r` turns: rank `r` moves
    /// on by one and every lower rank starts over.
    pub open spec fn advanced(idx: Seq<usize>, r: int) -> Seq<usize> {
        Seq::new(
            idx.len(),
            |s: int|
                if s < r {
                    0usize
                } else if s == r {
                    (idx[r] + 1) as usize
                } else {
                    idx[s]
                },
        )
    }

    /// The positions that follow `idx`, or `None` after the last flag.
    pub open spec fn successor(&self, idx: Seq<usize>) -> Option<Seq<usize>> {
        if exists|r: int| self.is_carry(idx, r) {
            Some(Self::advanced(idx, choose|r: int| self.is_carry(idx, r)))
        } else {
            None
        }
    }

    /// The positions of the `k`-th flag of the enumeration, or `None` once
    /// the enumeration is over.
    pub open spec fn nth_positions(&self, k: nat) -> Option<Seq<usize>>
        decreases k,
    {
        if k == 0 {
            if self.rank() >= 0 {
                Some(Seq::new(self.rank() as nat, |r: int| 0usize))
            } else {
                None
            }
        } else {
            match self.nth_positions((k - 1) as nat) {
                Some(idx) => self.successor(idx),
                None => None,
            }
        }
    }

    /// The `k`-th flag of the enumeration, or `None` once it is over.
    pub open spec fn nth_flag(&self, k: nat) -> Option<Seq<usize>> {
        match self.nth_positions(k) {
            Some(idx) => Some(self.decoded(idx)),
            None => None,
        }
    }
}

/// The element indices decoded from the positions at rank `s` and up depend
/// on those positions alone.
pub proof fn lemma_decoded_frame(p: &Abstract, a: Seq<usize>, b: Seq<usize>, s: int, t: int)
    requires
        s <= t,
        forall|u: int| s <= u < p.rank() ==> a[u] == b[u],
    ensures
        p.decoded_entry(a, t) == p.decoded_entry(b, t),
    decreases p.rank() - t,
{
    if t < p.rank() {
        lemma_decoded_frame(p, a, b, s, t + 1);
    }
}

/// Positions in range from rank `s` up decode to existing elements, each a
/// subelement of the one above.
pub proof fn lemma_decoded_bounds(p: &Abstract, idx: Seq<usize>, s: int, t: int)
    requires
        p.wf(),
        p.valid_from(idx, s),
        0 <= s <= t <= p.rank(),
    ensures
        0 <= p.decoded_entry(idx, t) < p.count(t),
        t < p.rank() ==> p.subs(t + 1, p.decoded_entry(idx, t + 1)).contains(
            p.decoded_entry(idx, t) as usize,
        ),
    decreases p.rank() - t,
{
    if t < p.rank() {
        lemma_decoded_bounds(p, idx, s, t + 1);
        let e = p.decoded_entry(idx, t + 1);
        assert(p.element_ok(t + 1, e));
        assert(idx[t] < p.radix(idx, t));
        let x = p.subs(t + 1, e)[idx[t] as int];
        assert(p.subs(t + 1, e).contains(x));
    }
}

/// Positions in range decode to a flag.
pub proof fn lemma_decoded_is_flag(p: &Abstract, idx: Seq<usize>)
    requires
        p.wf(),
        p.valid_from(idx, 0),
    ensures
        p.is_flag(p.decoded(idx)),
{
    let f = p.decoded(idx);
    assert forall|r: int| 0 <= r < f.len() implies #[trigger] f[r] < p.count(r) && p.subs(
        r + 1,
        entry_or_zero(f, r + 1) as int,
    ).contains(f[r]) by {
        lemma_decoded_bounds(p, idx, 0, r);
        lemma_decoded_bounds(p, idx, 0, r + 1);
    }
}

/// Turning the carry rank keeps every position in range.
pub proof fn lemma_advanced_valid(p: &Abstract, idx: Seq<usize>, r: int, s: int)
    requires
        p.wf(),
        p.valid_from(idx, 0),
        p.is_carry(idx, r),
        0 <= s <= r + 1,
    ensures
        p.valid_from(Abstract::advanced(idx, r), s),
    decreases r + 1 - s,
{
    let n = Abstract::advanced(idx, r);
    assert forall|t: int| r < t < p.rank() implies #[trigger] n[t] < p.radix(n, t) by {
        lemma_decoded_frame(p, idx, n, r + 1, t + 1);
    }
    assert(n[r] < p.radix(n, r)) by {
        lemma_decoded_frame(p, idx, n, r + 1, r + 1);
    }
    if s <= r {
        lemma_advanced_valid(p, idx, r, s + 1);
        lemma_decoded_bounds(p, n, s + 1, s + 1);
        assert(p.element_ok(s + 1, p.decoded_entry(n, s + 1)));
        assert forall|t: int| s <= t < p.rank() implies #[trigger] n[t] < p.radix(n, t) by {
            if t == s {
            } else {
                assert(n[t] < p.radix(n, t));
            }
        }
    }
}

/// The enumeration visits the positions of `nth_positions`, in order; they
/// are always in range.
pub proof fn lemma_nth_positions_valid(p: &Abstract, k: nat)
    requires
        p.wf(),
    ensures
        p.nth_positions(k) matches Some(idx) ==> p.valid_from(idx, 0),
    decreases k,
{
    if k == 0 {
        if p.rank() >= 0 {
            let z = Seq::new(p.rank() as nat, |r: int| 0usize);
            assert forall|t: int| 0 <= t < p.rank() implies #[trigger] z[t] < p.radix(z, t) by {
                lemma_zero_valid(p, z, t + 1);
                lemma_decoded_bounds(p, z, t + 1, t + 1);
                assert(p.element_ok(t + 1, p.decoded_entry(z, t + 1)));
            }
        }
    } else {
        lemma_nth_positions_valid(p, (k - 1) as nat);
        if let Some(idx) = p.nth_positions((k - 1) as nat) {
            if exists|r: int| p.is_carry(idx, r) {
                let r = choose|r: int| p.is_carry(idx, r);
                lemma_advanced_valid(p, idx, r, 0);
            }
        }
    }
}

/// All-zero positions are in range.
pub proof fn lemma_zero_valid(p: &Abstract, z: Seq<usize>, s: int)
    requires
        p.wf(),
        p.rank() >= 0,
        z == Seq::new(p.rank() as nat, |r: int| 0usize),
        0 <= s <= p.rank(),
    ensures
        p.valid_from(z, s),
    decreases p.rank() - s,
{
    if s < p.rank() {
        lemma_zero_valid(p, z, s + 1);
        lemma_decoded_bounds(p, z, s + 1, s + 1);
        assert(p.element_ok(s + 1, p.decoded_entry(z, s + 1)));
        assert forall|t: int| s <= t < p.rank() implies #[trigger] z[t] < p.radix(z, t) by {
            if t > s {
                assert(z[t] < p.radix(z, t));
            }
        }
    }
}

/// Only one rank can be the carry rank.
pub proof fn lemma_carry_unique(p: &Abstract, idx: Seq<usize>, r1: int, r2: int)
    requires
        p.is_carry(idx, r1),
        p.is_carry(idx, r2),
    ensures
        r1 == r2,
{
    if r1 < r2 {
        assert(idx[r1] + 1 >= p.radix(idx, r1));
    } else if r2 < r1 {
        assert(idx[r2] + 1 >= p.radix(idx, r2));
    }
}

impl Abstract {
    /// The first flag of the enumeration: from the maximal element down, take
    /// the first subelement at each rank. The nullitope has no flag.
    pub fn first_flag(&self) -> (r: Option<Flag>)
        requires
            self.wf(),
        ensures
            match self.nth_flag(0) {
                Some(f) => r matches Some(g) && g@ == f,
                None => r is None,
            },
            r matches Some(g) ==> self.is_flag(g@),
    {
        let n = self.ranks.len();
        if n < 2 {
            return None;
        }
        let rank = n - 2;
        let ghost z = Seq::new(rank as nat, |r: int| 0usize);
        proof {
            lemma_nth_positions_valid(self, 0);
            lemma_decoded_is_flag(self, z);
        }
        let mut flag: Vec<usize> = Vec::new();
        let mut k: usize = 0;
        while k < rank
            invariant
                k <= rank,
                flag@.len() == k,
            decreases rank - k,
        {
            flag.push(0);
            k += 1;
        }
        let mut idx: usize = 0;
        let mut r: usize = rank;
        while r > 0
            invariant
                rank == self.rank(),
                n == self.ranks@.len(),
                self.wf(),
                self.valid_from(z, 0),
                z == Seq::new(rank as nat, |r: int| 0usize),
                r <= rank,
                flag@.len() == rank,
                idx == self.decoded_entry(z, r as int),
                forall|t: int| r <= t < rank ==> flag@[t] == self.decoded_entry(z, t),
            decreases r,
        {
            proof {
                lemma_decoded_bounds(self, z, 0, r as int);
                assert(self.element_ok(r as int, idx as int));
            }
            r -= 1;
            idx = self.ranks[r + 2][idx].subs[0];
            assert(z[r as int] == 0);
            assert(idx == self.decoded_entry(z, r as int));
            flag.set(r, idx);
        }
        let f = Flag(flag);
        assert(f@ =~= self.decoded(z));
        Some(f)
    }
}

/// An iterator over every flag of an incidence structure, in the order of
/// their positions (see the module documentation). It runs once.
pub struct FlagIter<'a> {
    /// The structure whose flags are enumerated.
    polytope: &'a Abstract,
    /// The flag to hand out next, or `None` once every flag has been handed
    /// out.
    flag: Option<Flag>,
    /// The positions of `flag`.
    indices: Vec<usize>,
    /// How many flags have been asked for so far.
    steps: Ghost<nat>,
}

/// Recomputes the entries of a flag from rank `r` down, once the positions
/// at rank `r` and below have changed.
fn refill(p: &Abstract, flag: &mut Flag, indices: &Vec<usize>, r: usize)
    requires
        p.wf(),
        p.valid_from(indices@, 0),
        r < p.rank(),
        old(flag)@.len() == p.rank(),
        forall|t: int| r < t < p.rank() ==> old(flag)@[t] == p.decoded_entry(indices@, t),
    ensures
        final(flag)@ == p.decoded(indices@),
{
    let n = p.ranks.len();
    let rank = n - 2;
    let ghost nidx = indices@;
    let mut el: usize = if r + 1 < rank {
        flag.0[r + 1]
    } else {
        0
    };
    let mut s: usize = r;
    loop
        invariant
            p.wf(),
            n == p.ranks@.len(),
            rank == p.rank(),
            nidx == indices@,
            p.valid_from(nidx, 0),
            s <= r < rank,
            flag@.len() == rank,
            el == p.decoded_entry(nidx, s + 1),
            forall|t: int| s < t < rank ==> flag@[t] == p.decoded_entry(nidx, t),
        ensures
            flag@.len() == rank,
            forall|t: int| 0 <= t < rank ==> flag@[t] == p.decoded_entry(nidx, t),
        decreases s,
    {
        proof {
            lemma_decoded_bounds(p, nidx, 0, s + 1);
            assert(p.element_ok(s + 1, el as int));
            assert(nidx[s as int] < p.radix(nidx, s as int));
        }
        let x = p.ranks[s + 2][el].subs[indices[s]];
        flag.0.set(s, x);
        if s == 0 {
            break;
        }
        el = x;
        s -= 1;
    }
    assert(flag@ =~= p.decoded(nidx));
}

impl<'a> FlagIter<'a> {
    /// The structure being enumerated.
    pub closed spec fn source(&self) -> Abstract {
        *self.polytope
    }

    /// How many times `next` has been called.
    pub closed spec fn steps(&self) -> nat {
        self.steps@
    }

    /// The iterator's state matches the enumeration after `steps()` calls.
    pub closed spec fn inv(&self) -> bool {
        &&& self.polytope.wf()
        &&& match self.polytope.nth_positions(self.steps@) {
            Some(idx) => self.flag matches Some(f) && self.indices@ == idx && f@
                == self.polytope.decoded(idx),
            None => self.flag is None,
        }
    }

    /// Starts the enumeration of the flags of a well-formed structure.
    pub fn new(polytope: &'a Abstract) -> (r: Self)
        requires
            polytope.wf(),
        ensures
            r.inv(),
            r.source() == *polytope,
            r.steps() == 0,
    {
        let flag = polytope.first_flag();
        let n = polytope.ranks.len();
        let r: usize = if n < 2 {
            0
        } else {
            n - 2
        };
        let mut indices: Vec<usize> = Vec::new();
        let mut k: usize = 0;
        while k < r
            invariant
                k <= r,
                indices@.len() == k,
                forall|t: int| 0 <= t < k ==> indices@[t] == 0,
            decreases r - k,
        {
            indices.push(0);
            k += 1;
        }
        let it = FlagIter { polytope, flag, indices, steps: Ghost(0) };
        assert(polytope.rank() >= 0 ==> it.indices@ =~= Seq::new(
            polytope.rank() as nat,
            |r: int| 0usize,
        ));
        it
    }

    /// Starts the enumeration where the structure is well formed; `None`
    /// where it is not (the diamond property fails, or a list is unsorted or
    /// points nowhere).
    pub fn try_new(polytope: &'a Abstract) -> (r: Option<Self>)
        ensures
            r is Some <==> polytope.wf(),
            r matches Some(it) ==> it.inv() && it.source() == *polytope && it.steps() == 0,
    {
        if polytope.is_valid() {
            Some(FlagIter::new(polytope))
        } else {
            None
        }
    }

    /// Hands out the next flag, or `None` once every flag has been handed
    /// out: the `k`-th call returns `nth_flag(k)`.
    pub fn next(&mut self) -> (res: Option<Flag>)
        requires
            old(self).inv(),
        ensures
            final(self).inv(),
            final(self).source() == old(self).source(),
            final(self).steps() == old(self).steps() + 1,
            match old(self).source().nth_flag(old(self).steps()) {
                Some(f) => res matches Some(g) && g@ == f,
                None => res is None,
            },
    {
        let p = self.polytope;
        let ghost k = self.steps@;
        let prev = match &self.flag {
            None => {
                self.steps = Ghost(k + 1);
                return None;
            },
            Some(f) => f.duplicate(),
        };
        let ghost idx0 = self.indices@;
        proof {
            lemma_nth_positions_valid(p, k);
            lemma_decoded_is_flag(p, idx0);
        }
        let n = p.ranks.len();
        let rank = n - 2;
        let mut flag = prev.duplicate();
        let mut r: usize = 0;
        loop
            invariant_except_break
                r <= rank,
                forall|t: int| r <= t < rank ==> self.indices@[t] == idx0[t],
            invariant
                p == self.polytope,
                p.wf(),
                n == p.ranks@.len(),
                rank == p.rank(),
                p.valid_from(idx0, 0),
                flag@ == p.decoded(idx0),
                prev@ == p.decoded(idx0),
                old(self).polytope == p,
                self.indices@.len() == rank,
                forall|s: int| 0 <= s < r ==> #[trigger] idx0[s] + 1 >= p.radix(idx0, s),
                forall|t: int| 0 <= t < r ==> self.indices@[t] == 0,
                self.steps@ == k,
                k == old(self).steps@,
                p.nth_positions(k) == Some(idx0),
            ensures
                r < rank,
                idx0[r as int] + 1 < p.radix(idx0, r as int),
                self.indices@[r as int] == idx0[r as int] + 1,
                forall|t: int| r < t < rank ==> self.indices@[t] == idx0[t],
            decreases rank - r,
        {
            if r == rank {
                proof {
                    assert(!exists|c: int| p.is_carry(idx0, c));
                }
                self.flag = None;
                self.steps = Ghost(k + 1);
                return Some(prev);
            }
            let above = if r + 1 < rank {
                flag.0[r + 1]
            } else {
                0
            };
            proof {
                lemma_decoded_bounds(p, idx0, 0, r + 1);
            }
            let len = p.ranks[r + 2][above].subs.len();
            assert(len == p.radix(idx0, r as int));
            assert(self.indices@[r as int] == idx0[r as int]);
            assert(idx0[r as int] < p.radix(idx0, r as int));
            if len == self.indices[r] + 1 {
                self.indices.set(r, 0);
                r += 1;
            } else {
                let v = self.indices[r] + 1;
                self.indices.set(r, v);
                break;
            }
        }
        let ghost nidx = self.indices@;
        proof {
            assert(p.is_carry(idx0, r as int));
            assert(nidx =~= Abstract::advanced(idx0, r as int));
            let c = choose|c: int| p.is_carry(idx0, c);
            lemma_carry_unique(p, idx0, r as int, c);
            assert(p.nth_positions(k + 1) == Some(nidx));
            lemma_advanced_valid(p, idx0, r as int, 0);
            lemma_decoded_frame(p, idx0, nidx, r + 1, r + 1);
            assert forall|t: int| r < t < rank implies flag@[t] == p.decoded_entry(nidx, t) by {
                lemma_decoded_frame(p, idx0, nidx, r + 1, t);
            }
        }
        refill(p, &mut flag, &self.indices, r);
        self.flag = Some(flag);
        self.steps = Ghost(k + 1);
        Some(prev)
    }
}

impl<'a> FlagIter<'a> {
    /// The flag the next call of `next` hands out, or `None` once the
    /// enumeration is over.
    pub closed spec fn upcoming(&self) -> Option<Seq<usize>> {
        match self.flag {
            Some(f) => Some(f@),
            None => None,
        }
    }
}

/// Enumeration is repeatable: two enumerations of one structure that have
/// handed out equally many flags hand out the same flag next, the one that
/// `nth_flag` names; so every run yields the same sequence.
pub proof fn lemma_enumeration_repeatable(a: &FlagIter, b: &FlagIter)
    requires
        a.inv(),
        b.inv(),
        a.source() == b.source(),
        a.steps() == b.steps(),
    ensures
        a.upcoming() == b.upcoming(),
        a.upcoming() == a.source().nth_flag(a.steps()),
{
}

/// `a` comes before `b` when read from the top rank down.
pub open spec fn positions_before(a: Seq<usize>, b: Seq<usize>) -> bool {
    exists|r: int|
        0 <= r < a.len() && a[r] < b[r] && forall|s: int| r < s < a.len() ==> #[trigger] a[s] == b[s]
}

pub proof fn lemma_before_transitive(a: Seq<usize>, b: Seq<usize>, c: Seq<usize>)
    requires
        a.len() == b.len(),
        b.len() == c.len(),
        positions_before(a, b),
        positions_before(b, c),
    ensures
        positions_before(a, c),
{
    let r1 = choose|r: int|
        0 <= r < a.len() && a[r] < b[r] && forall|s: int| r < s < a.len() ==> #[trigger] a[s] == b[s];
    let r2 = choose|r: int|
        0 <= r < b.len() && b[r] < c[r] && forall|s: int| r < s < b.len() ==> #[trigger] b[s] == c[s];
    let r = if r1 > r2 {
        r1
    } else {
        r2
    };
    assert(a[r] < c[r]);
    assert(forall|s: int| r < s < a.len() ==> #[trigger] a[s] == c[s]);
}

/// Later positions of the enumeration come after earlier ones.
pub proof fn lemma_nth_increasing(p: &Abstract, j: nat, k: nat)
    requires
        p.wf(),
        j < k,
        p.nth_positions(k) is Some,
    ensures
        p.nth_positions(j) is Some,
        positions_before(p.nth_positions(j)->0, p.nth_positions(k)->0),
        p.nth_positions(j)->0.len() == p.nth_positions(k)->0.len(),
    decreases k,
{
    let prev = p.nth_positions((k - 1) as nat);
    assert(prev is Some);
    let idx = prev->0;
    let r = choose|r: int| p.is_carry(idx, r);
    lemma_nth_positions_valid(p, (k - 1) as nat);
    lemma_decoded_bounds(p, idx, 0, r + 1);
    assert(p.element_ok(r + 1, p.decoded_entry(idx, r + 1)));
    let next = Abstract::advanced(idx, r);
    assert(p.nth_positions(k) == Some(next));
    assert(positions_before(idx, next)) by {
        assert(idx[r] < next[r]);
        assert(forall|s: int| r < s < idx.len() ==> #[trigger] idx[s] == next[s]);
    }
    if j < k - 1 {
        lemma_nth_increasing(p, j, (k - 1) as nat);
        lemma_before_transitive(p.nth_positions(j)->0, idx, next);
    }
}

/// Positions in range, one before the other, decode to different flags.
pub proof fn lemma_decoded_distinct(p: &Abstract, a: Seq<usize>, b: Seq<usize>)
    requires
        p.wf(),
        p.valid_from(a, 0),
        p.valid_from(b, 0),
        positions_before(a, b),
    ensures
        p.decoded(a) != p.decoded(b),
{
    let r = choose|r: int|
        0 <= r < a.len() && a[r] < b[r] && forall|s: int| r < s < a.len() ==> #[trigger] a[s] == b[s];
    lemma_decoded_frame(p, a, b, r + 1, r + 1);
    let e = p.decoded_entry(a, r + 1);
    lemma_decoded_bounds(p, a, 0, r + 1);
    assert(p.element_ok(r + 1, e));
    assert(a[r] < p.radix(a, r));
    assert(b[r] < p.radix(b, r));
    assert(p.subs(r + 1, e)[a[r] as int] < p.subs(r + 1, e)[b[r] as int]);
    assert(p.decoded(a)[r] != p.decoded(b)[r]);
}

/// The enumeration never hands out a flag twice.
pub proof fn lemma_enumeration_no_repeat(p: &Abstract, j: nat, k: nat)
    requires
        p.wf(),
        j < k,
        p.nth_flag(k) is Some,
    ensures
        p.nth_flag(j) is Some,
        p.nth_flag(j) != p.nth_flag(k),
{
    lemma_nth_increasing(p, j, k);
    lemma_nth_positions_valid(p, j);
    lemma_nth_positions_valid(p, k);
    lemma_decoded_distinct(p, p.nth_positions(j)->0, p.nth_positions(k)->0);
}

/// Where `x` stands in `l`.
pub open spec fn position_in(l: Seq<usize>, x: usize) -> int {
    choose|i: int| 0 <= i < l.len() && #[trigger] l[i] == x
}

impl Abstract {
    /// The positions of the flag `f`: where each of its elements stands in
    /// the subelement list of the element above.
    pub open spec fn positions_of(&self, f: Seq<usize>) -> Seq<usize> {
        Seq::new(
            f.len(),
            |r: int| position_in(self.subs(r + 1, entry_or_zero(f, r + 1) as int), f[r]) as usize,
        )
    }
}

/// Positions that agree with `t` from rank `n` up and are zero below come
/// before `t` or equal it.
proof fn lemma_zeros_below(a: Seq<usize>, t: Seq<usize>, n: int)
    requires
        a.len() == t.len(),
        0 <= n <= a.len(),
        forall|q: int| 0 <= q < n ==> #[trigger] a[q] == 0,
        forall|q: int| n <= q < a.len() ==> #[trigger] a[q] == t[q],
    ensures
        a == t || positions_before(a, t),
    decreases n,
{
    if n == 0 {
        assert(a =~= t);
    } else if t[n - 1] != 0 {
        assert(a[n - 1] < t[n - 1]);
        assert(forall|q: int| n - 1 < q < a.len() ==> #[trigger] a[q] == t[q]);
    } else {
        lemma_zeros_below(a, t, n - 1);
    }
}

/// Where the position at rank `r` can still turn, some rank at or below
/// `r` is the carry rank.
proof fn lemma_carry_exists(p: &Abstract, s: Seq<usize>, r: int)
    requires
        0 <= r < s.len(),
        s[r] + 1 < p.radix(s, r),
    ensures
        exists|c: int| c <= r && p.is_carry(s, c),
    decreases r,
{
    if exists|q: int| 0 <= q < r && s[q] + 1 < p.radix(s, q) {
        let q = choose|q: int| 0 <= q < r && s[q] + 1 < p.radix(s, q);
        lemma_carry_exists(p, s, q);
    } else {
        assert(p.is_carry(s, r));
    }
}

/// The successor of positions before `t` is `t` or still before it.
#[verifier::rlimit(100)]
proof fn lemma_successor_not_past(p: &Abstract, s: Seq<usize>, t: Seq<usize>)
    requires
        p.wf(),
        p.valid_from(s, 0),
        p.valid_from(t, 0),
        positions_before(s, t),
    ensures
        p.successor(s) is Some,
        p.successor(s)->0 == t || positions_before(p.successor(s)->0, t),
{
    let r = choose|r: int|
        0 <= r < s.len() && s[r] < t[r] && forall|q: int| r < q < s.len() ==> #[trigger] s[q] == t[q];
    lemma_decoded_frame(p, s, t, r + 1, r + 1);
    assert(p.radix(s, r) == p.radix(t, r));
    assert(t[r] < p.radix(t, r));
    lemma_carry_exists(p, s, r);
    let c0 = choose|c: int| c <= r && p.is_carry(s, c);
    let c = choose|c: int| p.is_carry(s, c);
    lemma_carry_unique(p, s, c, c0);
    let a = Abstract::advanced(s, c);
    assert(p.successor(s) == Some(a));
    if c < r {
        assert(a[r] < t[r]);
        assert(forall|q: int| r < q < a.len() ==> #[trigger] a[q] == t[q]);
    } else if a[r] < t[r] {
        assert(forall|q: int| r < q < a.len() ==> #[trigger] a[q] == t[q]);
    } else {
        lemma_zeros_below(a, t, r);
    }
}

/// While `t` is never reached, every position of the enumeration comes
/// before it.
proof fn lemma_all_before(p: &Abstract, t: Seq<usize>, k: nat)
    requires
        p.wf(),
        p.rank() >= 0,
        p.valid_from(t, 0),
        forall|j: nat| #[trigger] p.nth_positions(j) != Some(t),
    ensures
        p.nth_positions(k) is Some,
        positions_before(p.nth_positions(k)->0, t),
    decreases k,
{
    lemma_nth_positions_valid(p, k);
    if k == 0 {
        let z = Seq::new(p.rank() as nat, |r: int| 0usize);
        assert(p.nth_positions(0) == Some(z));
        lemma_zeros_below(z, t, p.rank());
    } else {
        lemma_all_before(p, t, (k - 1) as nat);
        let s = p.nth_positions((k - 1) as nat)->0;
        lemma_nth_positions_valid(p, (k - 1) as nat);
        lemma_successor_not_past(p, s, t);
        assert(p.nth_positions(k) == p.successor(s));
        assert(p.nth_positions(k) != Some(t));
    }
}

/// The enumeration reaches every position vector in range.
proof fn lemma_positions_reached(p: &Abstract, t: Seq<usize>)
    requires
        p.wf(),
        p.rank() >= 0,
        p.valid_from(t, 0),
    ensures
        exists|k: nat| #[trigger] p.nth_positions(k) == Some(t),
{
    if forall|j: nat| #[trigger] p.nth_positions(j) != Some(t) {
        let n = p.flag_space() as int;
        let ks = vstd::set_lib::set_int_range(0, n + 1);
        let f = |k: int| p.nth_flag(k as nat)->0;
        assert forall|k: int| 0 <= k <= n implies #[trigger] p.nth_flag(k as nat) is Some && p.is_flag(f(k)) by {
            lemma_all_before(p, t, k as nat);
            lemma_nth_positions_valid(p, k as nat);
            lemma_decoded_is_flag(p, p.nth_positions(k as nat)->0);
        }
        assert(vstd::relations::injective_on(f, ks)) by {
            assert forall|a: int, b: int| ks.contains(a) && ks.contains(b) && #[trigger] f(a) == #[trigger] f(b) implies a == b by {
                if a < b {
                    lemma_enumeration_no_repeat(p, a as nat, b as nat);
                } else if b < a {
                    lemma_enumeration_no_repeat(p, b as nat, a as nat);
                }
            }
        }
        vstd::set_lib::lemma_int_range(0, n + 1);
        let img = ks.map(f);
        vstd::set_lib::lemma_map_size(ks, img, f);
        assert forall|g: Seq<usize>| img.contains(g) implies #[trigger] p.is_flag(g) by {
            let k = choose|k: int| ks.contains(k) && f(k) == g;
        }
        crate::oriented::lemma_flags_bound(p, img);
    }
}

/// Every flag is handed out by the enumeration: with
/// `lemma_enumeration_no_repeat`, the enumeration hands out each flag
/// exactly once.
pub proof fn lemma_enumeration_exhaustive(p: &Abstract, f: Seq<usize>)
    requires
        p.wf(),
        p.is_flag(f),
    ensures
        exists|k: nat| #[trigger] p.nth_flag(k) == Some(f),
{
    let idx = p.positions_of(f);
    lemma_positions_of(p, f, idx, 0);
    assert(p.decoded(idx) =~= f) by {
        assert forall|r: int| 0 <= r < f.len() implies #[trigger] p.decoded(idx)[r] == f[r] by {
            assert(p.decoded_entry(idx, r) == entry_or_zero(f, r));
        }
    }
    lemma_positions_reached(p, idx);
    let k = choose|k: nat| #[trigger] p.nth_positions(k) == Some(idx);
    assert(p.nth_flag(k) == Some(f));
}

/// The positions of a flag decode to it, from rank `n` up.
proof fn lemma_positions_of(p: &Abstract, f: Seq<usize>, idx: Seq<usize>, n: int)
    requires
        p.wf(),
        p.is_flag(f),
        0 <= n <= f.len(),
        idx == p.positions_of(f),
    ensures
        forall|r: int| n <= r <= f.len() ==> p.decoded_entry(idx, r) == entry_or_zero(f, r),
        p.valid_from(idx, n),
    decreases f.len() - n,
{
    if n < f.len() {
        lemma_positions_of(p, f, idx, n + 1);
        let e = entry_or_zero(f, n + 1) as int;
        let l = p.subs(n + 1, e);
        assert(f[n] < p.count(n) && l.contains(f[n]));
        let i = position_in(l, f[n]);
        assert(0 <= i < l.len() && l[i] == f[n]);
        assert(0 <= e < p.count(n + 1));
        assert(p.element_ok(n + 1, e));
        assert(idx[n] as int == i);
        assert(p.decoded_entry(idx, n) == entry_or_zero(f, n));
        assert forall|t: int| n <= t < p.rank() implies #[trigger] idx[t] < p.radix(idx, t) by {
            if t > n {
                assert(idx[t] < p.radix(idx, t));
            }
        }
    }
}

/// Once over, the enumeration stays over.
pub proof fn lemma_nth_none_stays(p: &Abstract, j: nat, k: nat)
    requires
        j <= k,
        p.nth_positions(j) is None,
    ensures
        p.nth_positions(k) is None,
    decreases k,
{
    if j < k {
        lemma_nth_none_stays(p, j, (k - 1) as nat);
    }
}

/// The enumeration of a well-formed structure ends: it hands out `nth_flag(k)`
/// for every `k` below some length, and nothing from there on.
pub proof fn lemma_enumeration_ends(p: &Abstract)
    requires
        p.wf(),
    ensures
        exists|len: nat|
            #![trigger p.nth_flag(len)]
            p.nth_flag(len) is None && forall|k: nat| k < len ==> #[trigger] p.nth_flag(k) is Some,
{
    let n = p.flag_space();
    if p.nth_positions(n + 1) is Some {
        let ks = vstd::set_lib::set_int_range(0, n as int + 1);
        let f = |k: int| p.nth_flag(k as nat)->0;
        assert forall|k: int| 0 <= k <= n implies #[trigger] p.nth_flag(k as nat) is Some && p.is_flag(f(k)) by {
            if k < n + 1 {
                lemma_nth_increasing(p, k as nat, n + 1);
            }
            lemma_nth_positions_valid(p, k as nat);
            lemma_decoded_is_flag(p, p.nth_positions(k as nat)->0);
        }
        assert(vstd::relations::injective_on(f, ks)) by {
            assert forall|a: int, b: int| ks.contains(a) && ks.contains(b) && #[trigger] f(a) == #[trigger] f(b) implies a == b by {
                if a < b {
                    lemma_enumeration_no_repeat(p, a as nat, b as nat);
                } else if b < a {
                    lemma_enumeration_no_repeat(p, b as nat, a as nat);
                }
            }
        }
        vstd::set_lib::lemma_int_range(0, n as int + 1);
        let img = ks.map(f);
        vstd::set_lib::lemma_map_size(ks, img, f);
        assert forall|g: Seq<usize>| img.contains(g) implies #[trigger] p.is_flag(g) by {
            let k = choose|k: int| ks.contains(k) && f(k) == g;
        }
        crate::oriented::lemma_flags_bound(p, img);
    }
    lemma_first_none(p, n + 1);
}

proof fn lemma_first_none(p: &Abstract, k: nat)
    requires
        p.wf(),
        p.nth_positions(k) is None,
    ensures
        exists|len: nat|
            #![trigger p.nth_flag(len)]
            p.nth_flag(len) is None && forall|j: nat| j < len ==> #[trigger] p.nth_flag(j) is Some,
    decreases k,
{
    if k > 0 && p.nth_positions((k - 1) as nat) is None {
        lemma_first_none(p, (k - 1) as nat);
    } else {
        assert forall|j: nat| j < k implies #[trigger] p.nth_flag(j) is Some by {
            if j < k - 1 {
                lemma_nth_increasing(p, j, (k - 1) as nat);
            }
        }
        assert(p.nth_flag(k) is None);
    }
}

} // verus!
