//! Flag orbits: the flags reachable from a seed flag through a set of flag
//! changes.

use vstd::prelude::*;
use crate::abs::Abstract;
use crate::table::{FlagTable, same_entries};
use crate::flag::{Flag, Orientation, OrientedFlag};
use crate::oriented::{FlagChanges, OrientedFlagIter, is_path_in, lemma_reachable_orbit, lemma_traversal_complete};
use crate::rank::Rank;

verus! {

/// The flags reachable from a seed flag through a set of flag changes,
/// together with those flag changes.
pub struct FlagSet {
    /// The flags of the set, each once, the seed first.
    pub flags: Vec<Flag>,
    /// The flag changes that generated the set.
    pub flag_changes: FlagChanges,
}

impl FlagSet {
    /// Every flag of the set is a flag reachable from `seed` through the set's
    /// flag changes, no flag occurs twice, and `seed` comes first.
    pub open spec fn orbit_of(&self, p: &Abstract, seed: Seq<usize>) -> bool {
        &&& forall|i: int|
            0 <= i < self.flags@.len() ==> {
                &&& p.is_flag(#[trigger] self.flags@[i]@)
                &&& p.reachable(self.flag_changes@, seed, self.flags@[i]@)
            }
        &&& forall|i: int, j: int|
            0 <= i < j < self.flags@.len() ==> #[trigger] self.flags@[i]@ != #[trigger] self.flags@[j]@
        &&& p.rank() >= 0 ==> self.flags@.len() >= 1 && self.flags@[0]@ == seed
    }

    /// The set holds `g`.
    pub open spec fn holds(&self, g: Seq<usize>) -> bool {
        exists|i: int| 0 <= i < self.flags@.len() && #[trigger] self.flags@[i]@ == g
    }

    /// The set holds every flag reachable from `seed` through its flag
    /// changes.
    pub open spec fn holds_orbit(&self, p: &Abstract, seed: Seq<usize>) -> bool {
        p.rank() >= 0 ==> forall|g: Seq<usize>|
            p.reachable(self.flag_changes@, seed, g) ==> #[trigger] self.holds(g)
    }

    /// The flags reachable from `first_flag` through `flag_changes`.
    pub fn with_flags(polytope: &Abstract, flag_changes: FlagChanges, first_flag: Flag) -> (r: FlagSet)
        requires
            polytope.wf(),
            polytope.changes_ok(flag_changes@),
            polytope.rank() >= 0 ==> polytope.is_flag(first_flag@),
        ensures
            r.flag_changes@ == flag_changes@,
            r.orbit_of(polytope, first_flag@),
            r.holds_orbit(polytope, first_flag@),
    {
        let ghost seed = first_flag@;
        let changes = flag_changes.duplicate();
        let mut it = OrientedFlagIter::with_flags(polytope, changes, OrientedFlag::from(first_flag));
        let mut flags: Vec<Flag> = Vec::new();
        loop
            invariant
                it.inv(),
                it.source() == *polytope,
                it.changes() == flag_changes@,
                it.seed() == seed,
                forall|i: int|
                    0 <= i < flags@.len() ==> {
                        &&& polytope.is_flag(#[trigger] flags@[i]@)
                        &&& polytope.reachable(flag_changes@, seed, flags@[i]@)
                        &&& it.emitted().contains(flags@[i]@)
                    },
                forall|i: int, j: int|
                    0 <= i < j < flags@.len() ==> #[trigger] flags@[i]@ != #[trigger] flags@[j]@,
                !it.started() ==> flags@.len() == 0,
                polytope.rank() >= 0 && it.started() ==> flags@.len() >= 1 && flags@[0]@ == seed,
                polytope.rank() >= 0 ==> !it.started() || flags@.len() >= 1,
                polytope.rank() < 0 ==> it.started(),
                forall|g: Seq<usize>|
                    #[trigger] it.emitted().contains(g) ==> exists|i: int|
                        0 <= i < flags@.len() && #[trigger] flags@[i]@ == g,
            ensures
                it.is_done(),
                forall|g: Seq<usize>|
                    #[trigger] it.emitted().contains(g) ==> exists|i: int|
                        0 <= i < flags@.len() && #[trigger] flags@[i]@ == g,
                it.started(),
                forall|i: int|
                    0 <= i < flags@.len() ==> {
                        &&& polytope.is_flag(#[trigger] flags@[i]@)
                        &&& polytope.reachable(flag_changes@, seed, flags@[i]@)
                    },
                forall|i: int, j: int|
                    0 <= i < j < flags@.len() ==> #[trigger] flags@[i]@ != #[trigger] flags@[j]@,
                polytope.rank() >= 0 ==> flags@.len() >= 1 && flags@[0]@ == seed,
            decreases it.measure(),
        {
            match it.filter_flags() {
                Some(of) => {
                    let ghost pre = flags@;
                    let ghost g0 = of.flag@;
                    flags.push(of.flag);
                    proof {
                        assert forall|g: Seq<usize>| #[trigger] it.emitted().contains(g) implies exists|i: int|
                            0 <= i < flags@.len() && #[trigger] flags@[i]@ == g by {
                            if g == g0 {
                                assert(flags@[pre.len() as int]@ == g);
                            } else {
                                let i = choose|i: int| 0 <= i < pre.len() && #[trigger] pre[i]@ == g;
                                assert(flags@[i]@ == g);
                            }
                        }
                    }
                },
                None => {
                    break;
                },
            }
        }
        proof {
            lemma_traversal_complete(&it);
        }
        let ghost fl = flags@;
        let r = FlagSet { flags, flag_changes };
        assert(r.holds_orbit(polytope, seed)) by {
            if polytope.rank() >= 0 {
                assert forall|g: Seq<usize>| polytope.reachable(r.flag_changes@, seed, g) implies #[trigger] r.holds(g) by {
                    assert(it.emitted().contains(g));
                    let i = choose|i: int| 0 <= i < fl.len() && #[trigger] fl[i]@ == g;
                    assert(r.flags@[i]@ == g);
                }
            }
        }
        r
    }

    /// The orbit of the first flag of the structure under every flag change:
    /// all of its flags, where its flags are connected. The nullitope has no
    /// flags.
    pub fn new(polytope: &Abstract) -> (r: FlagSet)
        requires
            polytope.wf(),
        ensures
            polytope.rank() >= 0 ==> r.flag_changes@ == Seq::new(polytope.rank() as nat, |i: int| i as usize),
            polytope.rank() >= 0 ==> (polytope.nth_flag(0) matches Some(f) && r.orbit_of(polytope, f) && r.holds_orbit(polytope, f)),
            polytope.rank() < 0 ==> r.flags@.len() == 0,
    {
        let n = polytope.ranks.len();
        if n < 2 {
            return FlagSet { flags: Vec::new(), flag_changes: FlagChanges(Vec::new()) };
        }
        let changes = FlagChanges::all(Rank::from_usize(n - 2));
        match polytope.first_flag() {
            Some(f) => FlagSet::with_flags(polytope, changes, f),
            None => FlagSet { flags: Vec::new(), flag_changes: changes },
        }
    }

    /// Whether the set has no flags.
    pub fn is_empty(&self) -> (r: bool)
        ensures
            r <==> self.flags@.len() == 0,
    {
        self.flags.len() == 0
    }

    /// The number of flags of the set.
    pub fn len(&self) -> (r: usize)
        ensures
            r == self.flags@.len(),
    {
        self.flags.len()
    }
}

/// Some set of `sets` generated by `changes` holds the flag `g`.
pub open spec fn covers(sets: Seq<FlagSet>, changes: Seq<usize>, g: Seq<usize>) -> bool {
    exists|o: int, t: int|
        0 <= o < sets.len() && sets[o].flag_changes@ == changes && 0 <= t < sets[o].flags@.len()
            && #[trigger] sets[o].flags@[t]@ == g
}

/// Some set of `sets` generated by `changes` less its entry at `a` holds the
/// flag `g`.
pub open spec fn covered(sets: Seq<FlagSet>, changes: Seq<usize>, a: int, g: Seq<usize>) -> bool {
    covers(sets, changes.remove(a), g)
}

/// Some set of `sets`, from index `lo` on and generated by `changes`, holds
/// the flag `g`.
pub open spec fn holds_from(sets: Seq<FlagSet>, lo: int, changes: Seq<usize>, g: Seq<usize>) -> bool {
    exists|o: int, t: int|
        lo <= o < sets.len() && sets[o].flag_changes@ == changes && 0 <= t < sets[o].flags@.len()
            && #[trigger] sets[o].flags@[t]@ == g
}

/// No flag lies in both sets.
pub open spec fn disjoint(a: FlagSet, b: FlagSet) -> bool {
    forall|s: int, t: int|
        0 <= s < a.flags@.len() && 0 <= t < b.flags@.len() ==> #[trigger] a.flags@[s]@ != #[trigger] b.flags@[t]@
}

/// `group[o]` is the position, in `changes`, of the flag change that
/// `sets[o]` leaves out: the groups come in increasing order, and the sets of
/// one group are pairwise disjoint (so no orbit comes twice).
pub open spec fn grouped(changes: Seq<usize>, sets: Seq<FlagSet>, group: Seq<int>) -> bool {
    &&& group.len() == sets.len()
    &&& forall|o: int|
        0 <= o < sets.len() ==> 0 <= #[trigger] group[o] < changes.len() && sets[o].flag_changes@
            == changes.remove(group[o])
    &&& forall|o1: int, o2: int| 0 <= o1 < o2 < sets.len() ==> #[trigger] group[o1] <= #[trigger] group[o2]
    &&& forall|o1: int, o2: int|
        0 <= o1 < o2 < sets.len() && group[o1] == group[o2] ==> disjoint(#[trigger] sets[o1], #[trigger] sets[o2])
}

proof fn lemma_covers_push(sets: Seq<FlagSet>, x: FlagSet, changes: Seq<usize>, g: Seq<usize>)
    requires
        covers(sets, changes, g),
    ensures
        covers(sets.push(x), changes, g),
{
    let (o, t) = choose|o: int, t: int|
        0 <= o < sets.len() && sets[o].flag_changes@ == changes && 0 <= t < sets[o].flags@.len()
            && #[trigger] sets[o].flags@[t]@ == g;
    assert(sets.push(x)[o] == sets[o]);
}

proof fn lemma_holds_from_push(sets: Seq<FlagSet>, lo: int, x: FlagSet, changes: Seq<usize>, g: Seq<usize>)
    requires
        0 <= lo,
        holds_from(sets, lo, changes, g),
    ensures
        holds_from(sets.push(x), lo, changes, g),
        covers(sets, changes, g),
{
    let (o, t) = choose|o: int, t: int|
        lo <= o < sets.len() && sets[o].flag_changes@ == changes && 0 <= t < sets[o].flags@.len()
            && #[trigger] sets[o].flags@[t]@ == g;
    assert(sets.push(x)[o] == sets[o]);
}

proof fn lemma_reach_self(p: &Abstract, changes: Seq<usize>, f: Seq<usize>)
    ensures
        p.reachable(changes, f, f),
{
    assert(p.apply_path(f, Seq::<usize>::empty()) == f);
    assert(is_path_in(changes, Seq::<usize>::empty()));
}

/// The orbit of a flag that an earlier orbit does not hold shares no flag
/// with it.
proof fn lemma_new_orbit_disjoint(p: &Abstract, fc: Seq<usize>, a: FlagSet, fa: Seq<usize>, b: FlagSet, fb: Seq<usize>)
    requires
        p.wf(),
        p.rank() >= 0,
        p.changes_ok(fc),
        p.is_flag(fa),
        p.is_flag(fb),
        a.flag_changes@ == fc,
        b.flag_changes@ == fc,
        a.orbit_of(p, fa),
        a.holds_orbit(p, fa),
        b.orbit_of(p, fb),
        !a.holds(fb),
    ensures
        disjoint(a, b),
{
    assert forall|s: int, t: int| 0 <= s < a.flags@.len() && 0 <= t < b.flags@.len() implies #[trigger] a.flags@[s]@
        != #[trigger] b.flags@[t]@ by {
        let h = b.flags@[t]@;
        if a.flags@[s]@ == h {
            assert(p.reachable(fc, fa, h));
            assert(p.reachable(fc, fb, h));
            assert(p.is_flag(h));
            lemma_reach_self(p, fc, fa);
            lemma_reach_self(p, fc, fb);
            lemma_reachable_orbit(p, fc, fa, h, fa);
            lemma_reachable_orbit(p, fc, fb, h, fb);
            lemma_reachable_orbit(p, fc, h, fa, fb);
            assert(a.holds(fb));
        }
    }
}

impl FlagSet {
    /// `s` is the whole orbit of one of this set's flags under this set's
    /// flag changes less one.
    pub open spec fn parent_of(&self, p: &Abstract, s: FlagSet) -> bool {
        &&& exists|i: int|
            0 <= i < self.flag_changes@.len() && s.flag_changes@ == self.flag_changes@.remove(i)
        &&& exists|j: int|
            0 <= j < self.flags@.len() && s.orbit_of(p, #[trigger] self.flags@[j]@) && s.holds_orbit(
                p,
                self.flags@[j]@,
            )
    }

    /// Appends the orbits, under `fc` (the flag changes less the one at `i`),
    /// of the flags of this set that no earlier of these orbits holds.
    #[verifier::rlimit(100)]
    fn push_orbits(&self, polytope: &Abstract, fc: &FlagChanges, i: usize, out: &mut Vec<FlagSet>, group0: Ghost<Seq<int>>) -> (group1: Ghost<Seq<int>>)
        requires
            polytope.wf(),
            polytope.changes_ok(self.flag_changes@),
            forall|j: int| 0 <= j < self.flags@.len() ==> polytope.is_flag(#[trigger] self.flags@[j]@),
            0 <= i < self.flag_changes@.len(),
            fc@ == self.flag_changes@.remove(i as int),
            forall|o: int| 0 <= o < old(out)@.len() ==> self.parent_of(polytope, #[trigger] old(out)@[o]),
            grouped(self.flag_changes@, old(out)@, group0@),
            forall|o: int| 0 <= o < old(out)@.len() ==> #[trigger] group0@[o] < i,
            forall|a: int, j: int|
                0 <= a < i && 0 <= j < self.flags@.len() ==> #[trigger] covered(old(out)@, self.flag_changes@, a, self.flags@[j]@),
        ensures
            forall|o: int| 0 <= o < final(out)@.len() ==> self.parent_of(polytope, #[trigger] final(out)@[o]),
            grouped(self.flag_changes@, final(out)@, group1@),
            forall|o: int| 0 <= o < final(out)@.len() ==> #[trigger] group1@[o] <= i,
            forall|a: int, j: int|
                0 <= a <= i && 0 <= j < self.flags@.len() ==> #[trigger] covered(final(out)@, self.flag_changes@, a, self.flags@[j]@),
    {
        let ghost mut group = group0@;
        proof {
            assert(polytope.changes_ok(fc@)) by {
                assert forall|k: int| 0 <= k < fc@.len() implies #[trigger] fc@[k] < polytope.rank() by {
                    if k < i {
                        assert(fc@[k] == self.flag_changes@[k]);
                    } else {
                        assert(fc@[k] == self.flag_changes@[k + 1]);
                    }
                }
            }
        }
        let ghost start = out@.len() as int;
        let mut seen = FlagTable::new();
        let mut j: usize = 0;
        while j < self.flags.len()
            invariant
                polytope.wf(),
                polytope.changes_ok(fc@),
                fc@ == self.flag_changes@.remove(i as int),
                0 <= i < self.flag_changes@.len(),
                forall|j: int| 0 <= j < self.flags@.len() ==> polytope.is_flag(#[trigger] self.flags@[j]@),
                j <= self.flags@.len(),
                0 <= start <= out@.len(),
                forall|o: int| 0 <= o < out@.len() ==> self.parent_of(polytope, #[trigger] out@[o]),
                grouped(self.flag_changes@, out@, group),
                forall|o: int| 0 <= o < start ==> #[trigger] group[o] < i,
                forall|o: int| start <= o < out@.len() ==> #[trigger] group[o] == i,
                forall|a: int, j: int|
                    0 <= a < i && 0 <= j < self.flags@.len() ==> #[trigger] covered(out@, self.flag_changes@, a, self.flags@[j]@),
                forall|b: int| 0 <= b < j ==> covers(out@, fc@, #[trigger] self.flags@[b]@),
                seen.wf(),
                forall|g: Seq<usize>| #[trigger] seen@.contains_key(g) ==> holds_from(out@, start, fc@, g),
                forall|o: int, t: int|
                    start <= o < out@.len() && 0 <= t < out@[o].flags@.len() ==> seen@.contains_key(
                        #[trigger] out@[o].flags@[t]@,
                    ),
            decreases self.flags@.len() - j,
        {
            let flag = &self.flags[j];
            if seen.get(flag).is_none() {
                let subset = FlagSet::with_flags(polytope, fc.duplicate(), flag.duplicate());
                let ghost pre = out@;
                let ghost f = flag@;
                proof {
                    assert(polytope.rank() >= 0) by {
                        assert(polytope.is_flag(self.flags@[j as int]@));
                    }
                    assert forall|o: int| start <= o < pre.len() implies disjoint(#[trigger] pre[o], subset) by {
                        assert(self.parent_of(polytope, pre[o]));
                        let jj = choose|jj: int|
                            0 <= jj < self.flags@.len() && pre[o].orbit_of(polytope, #[trigger] self.flags@[jj]@)
                                && pre[o].holds_orbit(polytope, self.flags@[jj]@);
                        assert(!pre[o].holds(f)) by {
                            if pre[o].holds(f) {
                                let t = choose|t: int| 0 <= t < pre[o].flags@.len() && #[trigger] pre[o].flags@[t]@ == f;
                                assert(seen@.contains_key(pre[o].flags@[t]@));
                            }
                        }
                        assert(pre[o].flag_changes@ == fc@) by {
                            assert(group[o] == i);
                        }
                        lemma_new_orbit_disjoint(polytope, fc@, pre[o], self.flags@[jj]@, subset, f);
                    }
                }
                out.push(subset);
                proof {
                    let last = out@[out@.len() - 1];
                    group = group.push(i as int);
                    assert(out@ == pre.push(last));
                    assert forall|a: int, b: int|
                        0 <= a < i && 0 <= b < self.flags@.len() implies #[trigger] covered(
                            out@,
                            self.flag_changes@,
                            a,
                            self.flags@[b]@,
                        ) by {
                        assert(covered(pre, self.flag_changes@, a, self.flags@[b]@));
                        lemma_covers_push(pre, last, self.flag_changes@.remove(a), self.flags@[b]@);
                    }
                    assert forall|b: int| 0 <= b < j implies covers(out@, fc@, #[trigger] self.flags@[b]@) by {
                        lemma_covers_push(pre, last, fc@, self.flags@[b]@);
                    }
                    assert forall|g: Seq<usize>| #[trigger] seen@.contains_key(g) implies holds_from(out@, start, fc@, g) by {
                        lemma_holds_from_push(pre, start, last, fc@, g);
                    }
                    assert(last.flags@[0]@ == f);
                    assert(covers(out@, fc@, self.flags@[j as int]@));
                    assert(exists|ii: int|
                        0 <= ii < self.flag_changes@.len() && last.flag_changes@ == self.flag_changes@.remove(ii));
                    assert(self.parent_of(polytope, last));
                    assert(grouped(self.flag_changes@, out@, group)) by {
                        assert forall|o1: int, o2: int| 0 <= o1 < o2 < out@.len() && group[o1] == group[o2]
                            implies disjoint(#[trigger] out@[o1], #[trigger] out@[o2]) by {
                            if o2 < pre.len() {
                                assert(out@[o1] == pre[o1] && out@[o2] == pre[o2]);
                            } else {
                                assert(out@[o1] == pre[o1]);
                            }
                        }
                    }
                }
                let last = out.len() - 1;
                let mut t: usize = 0;
                while t < out[last].flags.len()
                    invariant
                        last == out@.len() - 1,
                        start <= last,
                        out@[last as int].flag_changes@ == fc@,
                        t <= out@[last as int].flags@.len(),
                        seen.wf(),
                        forall|g: Seq<usize>| #[trigger] seen@.contains_key(g) ==> holds_from(out@, start, fc@, g),
                        forall|o: int, u: int|
                            start <= o < last && 0 <= u < out@[o].flags@.len() ==> seen@.contains_key(
                                #[trigger] out@[o].flags@[u]@,
                            ),
                        forall|u: int| 0 <= u < t ==> seen@.contains_key(#[trigger] out@[last as int].flags@[u]@),
                    decreases out@[last as int].flags@.len() - t,
                {
                    let h = &out[last].flags[t];
                    if seen.get(h).is_none() {
                        seen.insert(h.duplicate(), Orientation::Even);
                        proof {
                            assert(holds_from(out@, start, fc@, out@[last as int].flags@[t as int]@));
                        }
                    }
                    t += 1;
                }
            } else {
                proof {
                    lemma_holds_from_push(out@, start, out@[0], fc@, flag@);
                }
            }
            j += 1;
        }
        proof {
            assert forall|a: int, j: int|
                0 <= a <= i && 0 <= j < self.flags@.len() implies #[trigger] covered(out@, self.flag_changes@, a, self.flags@[j]@) by {
                if a == i {
                    assert(covers(out@, fc@, self.flags@[j]@));
                }
            }
        }
        Ghost(group)
    }

    /// For each flag change in turn, the orbits of this set's flags under the
    /// other flag changes: each orbit whole and once, the orbits of one left-out
    /// change pairwise disjoint and together holding every flag of this set,
    /// grouped in the order of `FlagChanges::subsets`.
    pub fn subsets(&self, polytope: &Abstract) -> (r: Vec<FlagSet>)
        requires
            polytope.wf(),
            polytope.changes_ok(self.flag_changes@),
            forall|j: int| 0 <= j < self.flags@.len() ==> polytope.is_flag(#[trigger] self.flags@[j]@),
        ensures
            forall|o: int| 0 <= o < r@.len() ==> self.parent_of(polytope, #[trigger] r@[o]),
            exists|group: Seq<int>| grouped(self.flag_changes@, r@, group),
            forall|i: int, j: int|
                0 <= i < self.flag_changes@.len() && 0 <= j < self.flags@.len() ==> #[trigger] covered(
                    r@,
                    self.flag_changes@,
                    i,
                    self.flags@[j]@,
                ),
    {
        let all_changes = self.flag_changes.subsets();
        let mut out: Vec<FlagSet> = Vec::new();
        let ghost mut group: Seq<int> = Seq::empty();
        let mut i: usize = 0;
        while i < all_changes.len()
            invariant
                polytope.wf(),
                polytope.changes_ok(self.flag_changes@),
                forall|j: int| 0 <= j < self.flags@.len() ==> polytope.is_flag(#[trigger] self.flags@[j]@),
                all_changes@.len() == self.flag_changes@.len(),
                forall|i: int| 0 <= i < all_changes@.len() ==> #[trigger] all_changes@[i]@ == self.flag_changes@.remove(i),
                i <= all_changes@.len(),
                forall|o: int| 0 <= o < out@.len() ==> self.parent_of(polytope, #[trigger] out@[o]),
                grouped(self.flag_changes@, out@, group),
                forall|o: int| 0 <= o < out@.len() ==> #[trigger] group[o] < i,
                forall|a: int, j: int|
                    0 <= a < i && 0 <= j < self.flags@.len() ==> #[trigger] covered(out@, self.flag_changes@, a, self.flags@[j]@),
            decreases all_changes@.len() - i,
        {
            let fc = &all_changes[i];
            let g = self.push_orbits(polytope, fc, i, &mut out, Ghost(group));
            proof {
                group = g@;
            }
            i += 1;
        }
        assert(grouped(self.flag_changes@, out@, group));
        out
    }
}

impl FlagSet {
    /// The narrow comparison of flag orbits used for omnitruncates: both sets
    /// come from the same flag changes and `other` holds the first flag of
    /// `self`. Two orbits under the same flag changes that share a flag are
    /// the same orbit, so this is set equality there and nowhere else.
    pub fn same_orbit(&self, other: &FlagSet) -> (r: bool)
        requires
            self.flags@.len() > 0,
        ensures
            r == (self.flag_changes@ == other.flag_changes@ && other.holds(self.flags@[0]@)),
    {
        if !same_entries(&self.flag_changes.0, &other.flag_changes.0) {
            return false;
        }
        let first = &self.flags[0];
        let mut i: usize = 0;
        while i < other.flags.len()
            invariant
                self.flags@.len() > 0,
                self.flag_changes@ == other.flag_changes@,
                first@ == self.flags@[0]@,
                i <= other.flags@.len(),
                forall|j: int| 0 <= j < i ==> #[trigger] other.flags@[j]@ != first@,
            decreases other.flags@.len() - i,
        {
            if same_entries(&other.flags[i].0, &first.0) {
                assert(other.flags@[i as int]@ == self.flags@[0]@);
                return true;
            }
            i += 1;
        }
        false
    }
}

} // verus!
