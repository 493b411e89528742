//! Breadth-first traversal of the flags reachable from a seed flag through a
//! chosen set of flag changes, tracking orientations to detect
//! non-orientability.

use vstd::prelude::*;
use std::collections::VecDeque;
use crate::abs::Abstract;
use crate::code::{code, lemma_code_bound, lemma_code_injective};
use crate::table::FlagTable;
use crate::flag::{Flag, Orientation, OrientedFlag, lemma_change_valid};
use crate::rank::Rank;

verus! {

broadcast use vstd::std_specs::hash::group_hash_axioms;

/// The ranks at which flag changes may be applied.
pub struct FlagChanges(pub Vec<usize>);

impl View for FlagChanges {
    type V = Seq<usize>;

    open spec fn view(&self) -> Seq<usize> {
        self.0@
    }
}

impl FlagChanges {
    /// Every flag change of a structure of the given rank: `0, 1, ..., rank - 1`.
    pub fn all(rank: Rank) -> (r: FlagChanges)
        requires
            rank.value() >= 0,
        ensures
            r@ == Seq::new(rank.value() as nat, |i: int| i as usize),
    {
        let n = rank.into_usize();
        let mut v: Vec<usize> = Vec::new();
        let mut i: usize = 0;
        while i < n
            invariant
                i <= n,
                v@ == Seq::new(i as nat, |k: int| k as usize),
            decreases n - i,
        {
            v.push(i);
            i += 1;
            assert(v@ =~= Seq::new(i as nat, |k: int| k as usize));
        }
        FlagChanges(v)
    }

    /// A copy of the set of flag changes.
    pub fn duplicate(&self) -> (r: FlagChanges)
        ensures
            r@ == self@,
    {
        let v = self.0.clone();
        assert(v@ =~= self.0@);
        FlagChanges(v)
    }

    /// For each position, the flag changes without the one at that position.
    pub fn subsets(&self) -> (r: Vec<FlagChanges>)
        ensures
            r@.len() == self@.len(),
            forall|i: int| 0 <= i < r@.len() ==> #[trigger] r@[i]@ == self@.remove(i),
    {
        let mut out: Vec<FlagChanges> = Vec::new();
        let mut i: usize = 0;
        while i < self.0.len()
            invariant
                i <= self@.len(),
                out@.len() == i,
                forall|k: int| 0 <= k < i ==> #[trigger] out@[k]@ == self@.remove(k),
            decreases self@.len() - i,
        {
            let mut subset = self.duplicate();
            subset.0.remove(i);
            out.push(subset);
            i += 1;
        }
        out
    }
}

/// Every entry of `path` is one of `changes`.
pub open spec fn is_path_in(changes: Seq<usize>, path: Seq<usize>) -> bool {
    forall|i: int| 0 <= i < path.len() ==> changes.contains(#[trigger] path[i])
}

/// The orientation after `n` flag changes from orientation `o`.
pub open spec fn parity(o: Orientation, n: nat) -> Orientation {
    if n % 2 == 0 {
        o
    } else {
        o.flipped()
    }
}

impl Abstract {
    /// The flag reached from `f` by applying the flag changes of `path` in
    /// order.
    pub open spec fn apply_path(&self, f: Seq<usize>, path: Seq<usize>) -> Seq<usize>
        decreases path.len(),
    {
        if path.len() == 0 {
            f
        } else {
            self.change_spec(self.apply_path(f, path.drop_last()), path.last() as int)
        }
    }

    /// `g` can be reached from `seed` by flag changes drawn from `changes`.
    pub open spec fn reachable(&self, changes: Seq<usize>, seed: Seq<usize>, g: Seq<usize>) -> bool {
        exists|path: Seq<usize>| is_path_in(changes, path) && self.apply_path(seed, path) == g
    }

    /// Some flag can be reached from `seed` both by an even and by an odd
    /// number of flag changes drawn from `changes`: no orientation of the
    /// flags is consistent with them.
    pub open spec fn parity_conflict(&self, changes: Seq<usize>, seed: Seq<usize>) -> bool {
        exists|w1: Seq<usize>, w2: Seq<usize>|
            is_path_in(changes, w1) && is_path_in(changes, w2) && self.apply_path(seed, w1)
                == self.apply_path(seed, w2) && w1.len() % 2 != w2.len() % 2
    }

    /// The flag changes all lie below the rank.
    pub open spec fn changes_ok(&self, changes: Seq<usize>) -> bool {
        forall|i: int| 0 <= i < changes.len() ==> #[trigger] changes[i] < self.rank()
    }
}

/// Flag changes keep a flag a flag.
pub proof fn lemma_path_valid(p: &Abstract, changes: Seq<usize>, seed: Seq<usize>, w: Seq<usize>)
    requires
        p.wf(),
        p.is_flag(seed),
        p.changes_ok(changes),
        is_path_in(changes, w),
    ensures
        p.is_flag(p.apply_path(seed, w)),
    decreases w.len(),
{
    if w.len() > 0 {
        let v = w.drop_last();
        assert(is_path_in(changes, v)) by {
            assert forall|i: int| 0 <= i < v.len() implies changes.contains(#[trigger] v[i]) by {
                assert(v[i] == w[i]);
            }
        }
        lemma_path_valid(p, changes, seed, v);
        assert(changes.contains(w[w.len() - 1]));
        let k = choose|k: int| 0 <= k < changes.len() && changes[k] == w.last();
        lemma_change_valid(p, p.apply_path(seed, v), w.last() as int);
    }
}

/// Extending a path by one change applies that change.
pub proof fn lemma_path_push(p: &Abstract, changes: Seq<usize>, seed: Seq<usize>, w: Seq<usize>, c: usize)
    requires
        is_path_in(changes, w),
        changes.contains(c),
    ensures
        is_path_in(changes, w.push(c)),
        p.apply_path(seed, w.push(c)) == p.change_spec(p.apply_path(seed, w), c as int),
        w.push(c).len() % 2 != w.len() % 2,
{
    assert(w.push(c).drop_last() == w);
    assert forall|i: int| 0 <= i < w.push(c).len() implies changes.contains(#[trigger] w.push(c)[i]) by {
        if i < w.len() {
            assert(w.push(c)[i] == w[i]);
        }
    }
}

/// A path followed by another.
pub proof fn lemma_path_concat(p: &Abstract, f: Seq<usize>, w1: Seq<usize>, w2: Seq<usize>)
    ensures
        p.apply_path(f, w1 + w2) == p.apply_path(p.apply_path(f, w1), w2),
    decreases w2.len(),
{
    if w2.len() > 0 {
        lemma_path_concat(p, f, w1, w2.drop_last());
        assert((w1 + w2).drop_last() == w1 + w2.drop_last());
        assert((w1 + w2).last() == w2.last());
    } else {
        assert(w1 + w2 == w1);
    }
}

/// The changes of a path in the opposite order.
pub open spec fn reversed(w: Seq<usize>) -> Seq<usize>
    decreases w.len(),
{
    if w.len() == 0 {
        w
    } else {
        seq![w.last()] + reversed(w.drop_last())
    }
}

proof fn lemma_reversed_in(changes: Seq<usize>, w: Seq<usize>)
    requires
        is_path_in(changes, w),
    ensures
        is_path_in(changes, reversed(w)),
        reversed(w).len() == w.len(),
    decreases w.len(),
{
    if w.len() > 0 {
        let v = w.drop_last();
        assert(is_path_in(changes, v)) by {
            assert forall|i: int| 0 <= i < v.len() implies changes.contains(#[trigger] v[i]) by {
                assert(v[i] == w[i]);
            }
        }
        lemma_reversed_in(changes, v);
        assert(changes.contains(w[w.len() - 1]));
        let r = reversed(w);
        assert forall|i: int| 0 <= i < r.len() implies changes.contains(#[trigger] r[i]) by {
            if i > 0 {
                assert(r[i] == reversed(v)[i - 1]);
            }
        }
    }
}

/// Undoing a path's changes in the opposite order gives back the flag.
proof fn lemma_path_undo(p: &Abstract, changes: Seq<usize>, f: Seq<usize>, w: Seq<usize>)
    requires
        p.wf(),
        p.is_flag(f),
        p.changes_ok(changes),
        is_path_in(changes, w),
    ensures
        p.apply_path(p.apply_path(f, w), reversed(w)) == f,
    decreases w.len(),
{
    if w.len() > 0 {
        let v = w.drop_last();
        let c = w.last();
        assert(is_path_in(changes, v)) by {
            assert forall|i: int| 0 <= i < v.len() implies changes.contains(#[trigger] v[i]) by {
                assert(v[i] == w[i]);
            }
        }
        lemma_path_undo(p, changes, f, v);
        lemma_path_valid(p, changes, f, v);
        let g = p.apply_path(f, v);
        assert(changes.contains(w[w.len() - 1]));
        let k = choose|k: int| 0 <= k < changes.len() && changes[k] == c;
        crate::flag::lemma_change_involution(p, g, c as int);
        lemma_path_concat(p, p.apply_path(f, w), seq![c], reversed(v));
        assert(seq![c].drop_last() =~= Seq::<usize>::empty());
        assert(seq![c].last() == c);
        let x = p.apply_path(f, w);
        assert(p.apply_path(x, Seq::<usize>::empty()) == x);
        assert(p.apply_path(x, seq![c]) == p.change_spec(p.apply_path(x, seq![c].drop_last()), c as int));
        assert(p.apply_path(x, seq![c]) == p.change_spec(x, c as int));
        assert(x == p.change_spec(g, c as int));
        assert(reversed(w) == seq![c] + reversed(v));
    }
}

/// Reachability through a set of flag changes is symmetric and transitive:
/// flags reachable from one another share their orbit.
pub proof fn lemma_reachable_orbit(p: &Abstract, changes: Seq<usize>, a: Seq<usize>, b: Seq<usize>, c: Seq<usize>)
    requires
        p.wf(),
        p.is_flag(a),
        p.changes_ok(changes),
        p.reachable(changes, a, b),
        p.reachable(changes, a, c),
    ensures
        p.reachable(changes, b, c),
{
    let w1 = choose|w: Seq<usize>| is_path_in(changes, w) && p.apply_path(a, w) == b;
    let w2 = choose|w: Seq<usize>| is_path_in(changes, w) && p.apply_path(a, w) == c;
    lemma_path_undo(p, changes, a, w1);
    lemma_reversed_in(changes, w1);
    lemma_path_concat(p, b, reversed(w1), w2);
    let w = reversed(w1) + w2;
    assert(is_path_in(changes, w)) by {
        assert forall|i: int| 0 <= i < w.len() implies changes.contains(#[trigger] w[i]) by {
            if i < w1.len() {
                assert(w[i] == reversed(w1)[i]);
            } else {
                assert(w[i] == w2[i - w1.len()]);
            }
        }
    }
}

/// Two flags with the same number are the same flag.
pub proof fn lemma_code_determines(p: &Abstract, f: Seq<usize>, g: Seq<usize>)
    requires
        p.is_flag(f),
        p.is_flag(g),
        code(p, f) == code(p, g),
    ensures
        f == g,
{
    assert forall|r: int| 0 <= r < f.len() implies #[trigger] f[r] < p.count(r) by {}
    assert forall|r: int| 0 <= r < g.len() implies #[trigger] g[r] < p.count(r) by {}
    lemma_code_injective(p, f, g, f.len() as int);
    assert(f =~= g);
}

impl<'a> OrientedFlagIter<'a> {
    /// There are no more found flags than sequences in the flag space.
    proof fn lemma_found_bound(&self)
        requires
            self.polytope.wf(),
            self.found@.dom().finite(),
            self.found_ok(),
        ensures
            self.found@.dom().len() <= self.polytope.flag_space(),
    {
        let p = self.polytope;
        assert forall|k: Seq<usize>| self.found@.dom().contains(k) implies #[trigger] p.is_flag(k) by {
            assert(self.found@.contains_key(k));
        }
        lemma_flags_bound(p, self.found@.dom());
    }
}

/// A finite set of flags has at most as many members as the flag space.
pub proof fn lemma_flags_bound(p: &Abstract, flags: Set<Seq<usize>>)
    requires
        flags.finite(),
        forall|g: Seq<usize>| flags.contains(g) ==> #[trigger] p.is_flag(g),
    ensures
        flags.len() <= p.flag_space(),
{
    let n = p.flag_space();
    let f = |g: Seq<usize>| code(p, g) as int;
    let img = flags.map(f);
    assert(vstd::relations::injective_on(f, flags)) by {
        assert forall|a: Seq<usize>, b: Seq<usize>| flags.contains(a) && flags.contains(b) && #[trigger] f(a) == #[trigger] f(b) implies a == b by {
            lemma_code_determines(p, a, b);
        }
    }
    vstd::set_lib::lemma_map_size(flags, img, f);
    vstd::set_lib::lemma_int_range(0, n as int);
    assert(img.subset_of(vstd::set_lib::set_int_range(0, n as int))) by {
        assert forall|x: int| img.contains(x) implies #[trigger] vstd::set_lib::set_int_range(0, n as int).contains(x) by {
            let g = choose|g: Seq<usize>| flags.contains(g) && f(g) == x;
            assert(p.is_flag(g));
            assert forall|r: int| 0 <= r < g.len() implies #[trigger] g[r] < p.count(r) by {}
            lemma_code_bound(p, g, p.rank());
        }
    }
    vstd::set_lib::lemma_len_subset(img, vstd::set_lib::set_int_range(0, n as int));
}

/// What a traversal step hands out: a newly found flag, or the discovery
/// that the flags cannot be oriented consistently.
pub enum FlagEvent {
    /// A flag not found before.
    Flag(OrientedFlag),
    /// Two routes to one flag disagree on its orientation.
    NonOrientable,
}

impl FlagEvent {
    /// The flag of the event, if it carries one.
    pub fn flag(self) -> (r: Option<OrientedFlag>)
        ensures
            match self {
                FlagEvent::Flag(f) => r == Some(f),
                FlagEvent::NonOrientable => r is None,
            },
    {
        match self {
            FlagEvent::Flag(f) => Some(f),
            FlagEvent::NonOrientable => None,
        }
    }

    /// Whether this is the non-orientability event.
    pub fn non_orientable(&self) -> (r: bool)
        ensures
            r <==> self is NonOrientable,
    {
        match self {
            FlagEvent::Flag(_) => false,
            FlagEvent::NonOrientable => true,
        }
    }
}

/// The result of one step of the traversal.
pub enum FlagNext {
    /// A flag event to hand out.
    New(FlagEvent),
    /// A flag found before, with nothing to report.
    Repeat,
    /// The traversal is over.
    Done,
}

/// A breadth-first traversal of the flags reachable from a seed flag through
/// a set of flag changes. Each flag is handed out once, the seed first; where
/// two routes to a flag give it opposite orientations, the traversal reports
/// it once.
///
/// Found flags are kept, with their orientations, until the traversal ends.
pub struct OrientedFlagIter<'a> {
    /// The structure being traversed.
    polytope: &'a Abstract,
    /// Flags whose neighbours are still being searched.
    queue: VecDeque<OrientedFlag>,
    /// The flag changes applied.
    flag_changes: FlagChanges,
    /// The flag change to apply next to the front of the queue.
    flag_idx: usize,
    /// Whether the seed flag has been handed out.
    first: bool,
    /// The orientation of every flag found so far.
    found: FlagTable,
    /// Whether no orientation conflict has been seen.
    orientable: bool,
    /// The seed flag.
    seed: Ghost<Seq<usize>>,
    /// The orientation of the seed flag.
    seed_orientation: Ghost<Orientation>,
    /// For every flag found, the changes that lead to it from the seed.
    paths: Ghost<Map<Seq<usize>, Seq<usize>>>,
    /// The flags handed out so far.
    emitted: Ghost<Set<Seq<usize>>>,
    /// The flags in the queue.
    queue_keys: Ghost<Seq<Seq<usize>>>,
    /// How many flag changes have been applied so far.
    steps: Ghost<nat>,
    /// The seed flag, handed out first.
    seed_flag: OrientedFlag,
}

impl<'a> OrientedFlagIter<'a> {
    /// The structure being traversed.
    pub closed spec fn source(&self) -> Abstract {
        *self.polytope
    }

    /// The flag changes applied.
    pub closed spec fn changes(&self) -> Seq<usize> {
        self.flag_changes@
    }

    /// The flag the traversal starts from.
    pub closed spec fn seed(&self) -> Seq<usize> {
        self.seed@
    }

    /// The orientation of the seed flag.
    pub closed spec fn seed_orientation(&self) -> Orientation {
        self.seed_orientation@
    }

    /// The flags handed out so far.
    pub closed spec fn emitted(&self) -> Set<Seq<usize>> {
        self.emitted@
    }

    /// The orientation with which the flag `h` was found.
    pub closed spec fn orientation_of(&self, h: Seq<usize>) -> Orientation {
        self.found@[h]
    }

    /// The flags found so far.
    pub closed spec fn found_flags(&self) -> Set<Seq<usize>> {
        Set::new(
            |g: Seq<usize>|
                self.polytope.is_flag(g) && self.found@.contains_key(g),
        )
    }

    /// No orientation conflict has been seen.
    pub closed spec fn is_orientable(&self) -> bool {
        self.orientable
    }

    /// The seed flag has been handed out.
    pub closed spec fn started(&self) -> bool {
        self.first
    }

    /// Falls with every flag event.
    pub closed spec fn measure(&self) -> nat {
        let n = self.polytope.flag_space();
        let k = self.found@.dom().len();
        (if k <= n {
            (n - k) as nat
        } else {
            0nat
        }) * 3 + (if self.first {
            0nat
        } else {
            1nat
        }) + (if self.orientable {
            1nat
        } else {
            0nat
        })
    }

    /// Falls with every step that finds nothing new.
    pub closed spec fn step_measure(&self) -> nat {
        let m = self.queue@.len() * self.flag_changes@.len() - self.flag_idx;
        if m >= 0 {
            m as nat
        } else {
            0
        }
    }

    /// The traversal state is consistent.
    pub closed spec fn inv(&self) -> bool {
        let p = self.polytope;
        let ch = self.flag_changes@;
        let seed = self.seed@;
        let q = self.queue@;
        &&& p.wf()
        &&& self.found.wf()
        &&& p.changes_ok(ch)
        &&& (p.rank() >= 0 ==> p.is_flag(seed))
        &&& (p.rank() < 0 ==> q.len() == 0 && self.found@.dom().len() == 0 && self.first
            && self.emitted@.len() == 0)
        &&& self.found@.dom().finite()
        &&& self.found_ok()
        &&& self.queue_ok()
        &&& (q.len() > 0 ==> ch.len() > 0 && self.flag_idx < ch.len())
        &&& (!self.first ==> !self.emitted@.contains(seed))
        &&& (p.rank() >= 0 ==> self.seed_flag.flag@ == seed && self.seed_flag.orientation
            == self.seed_orientation@)
        &&& self.emitted@.subset_of(self.found_flags())
        &&& self.emitted@.finite()
        &&& (!self.orientable ==> p.parity_conflict(ch, seed))
        &&& self.progress_ok()
        &&& self.steps@ + q.len() * ch.len() == self.found@.dom().len() * ch.len() + self.flag_idx
        &&& (q.len() == 0 ==> self.flag_idx == 0)
    }

    /// How many flag changes the traversal has applied so far.
    pub closed spec fn steps_taken(&self) -> nat {
        self.steps@
    }

    /// The flags found are the keys of the table of found flags.
    proof fn lemma_found_flags_dom(&self)
        requires
            self.inv(),
        ensures
            self.found_flags() == self.found@.dom(),
    {
        assert(self.found_ok());
        assert(self.found_flags() =~= self.found@.dom()) by {
            assert forall|g: Seq<usize>| self.found@.dom().contains(g) implies #[trigger] self.found_flags().contains(g) by {
                assert(self.found@.contains_key(g));
            }
        }
    }

    /// Every found flag is reached from the seed along its recorded route,
    /// with the orientation of that route.
    pub closed spec fn found_ok(&self) -> bool {
        let p = self.polytope;
        let ch = self.flag_changes@;
        let seed = self.seed@;
        forall|k: Seq<usize>|
            #![trigger self.found@.contains_key(k)]
            self.found@.contains_key(k) ==> {
                &&& self.paths@.contains_key(k)
                &&& is_path_in(ch, self.paths@[k])
                &&& p.is_flag(p.apply_path(seed, self.paths@[k]))
                &&& p.apply_path(seed, self.paths@[k]) == k
                &&& self.found@[k] == parity(self.seed_orientation@, self.paths@[k].len())
            }
    }

    /// Every queued flag is a found flag with its found orientation.
    pub closed spec fn queue_ok(&self) -> bool {
        let p = self.polytope;
        let q = self.queue@;
        forall|i: int|
            #![trigger q[i]]
            0 <= i < q.len() ==> {
                &&& p.is_flag(q[i].flag@)
                &&& self.found@.contains_key(q[i].flag@)
                &&& self.found@[q[i].flag@] == q[i].orientation
            }
    }

    /// The found flag `k`, as reached along its recorded route.
    pub closed spec fn flag_of(&self, k: Seq<usize>) -> Seq<usize> {
        self.polytope.apply_path(self.seed@, self.paths@[k])
    }

    /// The flag change `c` applied to the found flag `k` leads to a found
    /// flag, of the opposite orientation while no conflict has been seen.
    pub closed spec fn done_with(&self, k: Seq<usize>, c: usize) -> bool {
        let kg = self.polytope.change_spec(self.flag_of(k), c as int);
        &&& self.found@.contains_key(kg)
        &&& (self.orientable ==> self.found@[kg] == self.found@[k].flipped())
    }

    /// Every found flag out of the queue has had every flag change applied,
    /// and the front of the queue those before the cursor; the seed is found
    /// with its own orientation; once started, the flags handed out are the
    /// flags found.
    pub closed spec fn progress_ok(&self) -> bool {
        let p = self.polytope;
        let ch = self.flag_changes@;
        let seed = self.seed@;
        let q = self.queue@;
        let keys = self.queue_keys@;
        &&& keys.len() == q.len()
        &&& forall|i: int| 0 <= i < q.len() ==> #[trigger] keys[i] == q[i].flag@
        &&& keys.no_duplicates()
        &&& forall|k: Seq<usize>|
            #![trigger self.found@.contains_key(k)]
            self.found@.contains_key(k) && !keys.contains(k) ==> forall|t: int|
                0 <= t < ch.len() ==> #[trigger] self.done_with(k, ch[t])
        &&& (q.len() > 0 ==> forall|t: int|
            0 <= t < self.flag_idx ==> #[trigger] self.done_with(keys[0], ch[t]))
        &&& (self.first ==> self.emitted@ == self.found_flags())
        &&& (!self.first ==> self.emitted@.insert(seed) == self.found_flags())
        &&& (p.rank() >= 0 ==> self.found@.contains_key(seed)
            && self.found@[seed] == self.seed_orientation@)
    }

    /// The queue is empty: `try_next` has no flag change left to apply.
    pub closed spec fn exhausted(&self) -> bool {
        self.queue@.len() == 0
    }

    /// `next` has no more flags to hand out.
    pub open spec fn is_done(&self) -> bool {
        self.started() && self.exhausted()
    }

    /// The flags waiting in the queue, front first.
    pub closed spec fn queued(&self) -> Seq<Seq<usize>> {
        self.queue_keys@
    }

    /// The position, in the flag changes, of the change to apply next to the
    /// front of the queue.
    pub closed spec fn cursor(&self) -> int {
        self.flag_idx as int
    }

    /// The flag the next step of `try_next` looks at: the front of the queue
    /// changed at the cursor.
    pub open spec fn candidate(&self) -> Seq<usize> {
        self.source().change_spec(self.queued()[0], self.changes()[self.cursor()] as int)
    }
}

/// The facts shared by consecutive states of one traversal.
pub open spec fn same_traversal(a: &OrientedFlagIter, b: &OrientedFlagIter) -> bool {
    &&& b.inv()
    &&& b.source() == a.source()
    &&& b.changes() == a.changes()
    &&& b.seed() == a.seed()
    &&& b.seed_orientation() == a.seed_orientation()
    &&& forall|h: Seq<usize>| a.emitted().contains(h) ==> #[trigger] b.orientation_of(h) == a.orientation_of(h)
}

/// A flag found by a step of `try_next`: a flag other than the seed, one flag
/// change away from the seed or from a flag handed out before, with the
/// opposite orientation.
pub open spec fn adjacent_step(a: &OrientedFlagIter, of: OrientedFlag) -> bool {
    &&& of.flag@ != a.seed()
    &&& exists|h: Seq<usize>, c: usize|
        (#[trigger] a.emitted().contains(h) || h == a.seed()) && #[trigger] a.changes().contains(c)
            && of.flag@ == a.source().change_spec(h, c as int) && of.orientation == a.orientation_of(h).flipped()
}

/// A step of the breadth-first traversal, from `a` to `b` with result `res`:
/// the candidate (the front of the queue changed at the cursor) is a new flag
/// exactly when it was not found before, and then goes to the back of the
/// queue with the front's orientation flipped; it is an orientation conflict
/// exactly when it was found, with the orientation unflipped, while no
/// conflict had been seen; the cursor moves on, and past the last change the
/// front leaves the queue.
pub open spec fn fifo_step(a: &OrientedFlagIter, b: &OrientedFlagIter, res: FlagNext) -> bool {
    let h = a.queued()[0];
    let cand = a.candidate();
    let last = a.cursor() + 1 == a.changes().len();
    let is_new = res is New && res->New_0 is Flag;
    let pushed = if is_new {
        a.queued().push(cand)
    } else {
        a.queued()
    };
    &&& is_new <==> !a.found_flags().contains(cand)
    &&& (is_new ==> res->New_0->Flag_0.flag@ == cand && res->New_0->Flag_0.orientation
        == a.orientation_of(h).flipped())
    &&& (res is New && res->New_0 is NonOrientable) <==> (a.found_flags().contains(cand)
        && a.is_orientable() && a.orientation_of(cand) != a.orientation_of(h).flipped())
    &&& last ==> b.queued() == pushed.drop_first() && b.cursor() == 0
    &&& !last ==> b.queued() == pushed && b.cursor() == a.cursor() + 1
}

/// A step that hands out the flag `of`, which had not been handed out: it
/// is a flag reached from the seed, and its orientation is the parity of a
/// route to it.
pub open spec fn new_flag_step(a: &OrientedFlagIter, b: &OrientedFlagIter, of: OrientedFlag) -> bool {
    &&& a.source().is_flag(of.flag@)
    &&& !a.emitted().contains(of.flag@)
    &&& b.emitted() == a.emitted().insert(of.flag@)
    &&& exists|w: Seq<usize>|
        is_path_in(a.changes(), w) && a.source().apply_path(a.seed(), w) == of.flag@
            && of.orientation == parity(a.seed_orientation(), w.len())
    &&& b.orientation_of(of.flag@) == of.orientation
    &&& b.is_orientable() == a.is_orientable()
    &&& b.measure() < a.measure()
}

/// A step that reports an orientation conflict, for the first time.
pub open spec fn non_orientable_step(a: &OrientedFlagIter, b: &OrientedFlagIter) -> bool {
    &&& a.is_orientable()
    &&& !b.is_orientable()
    &&& a.source().parity_conflict(a.changes(), a.seed())
    &&& b.emitted() == a.emitted()
    &&& b.measure() < a.measure()
}

impl<'a> OrientedFlagIter<'a> {
    /// A traversal that hands out nothing.
    pub fn empty(polytope: &'a Abstract) -> (r: Self)
        requires
            polytope.wf(),
            polytope.rank() < 0,
        ensures
            r.inv(),
            r.source() == *polytope,
            r.is_done(),
            r.is_orientable(),
            r.emitted() == Set::<Seq<usize>>::empty(),
    {
        proof {
            assert(polytope.flag_space() == 1);
        }
        let r = OrientedFlagIter {
            polytope,
            queue: VecDeque::new(),
            flag_changes: FlagChanges(Vec::new()),
            flag_idx: 0,
            first: true,
            found: FlagTable::new(),
            orientable: true,
            seed: Ghost(Seq::empty()),
            seed_orientation: Ghost(Orientation::Even),
            paths: Ghost(Map::empty()),
            emitted: Ghost(Set::empty()),
            queue_keys: Ghost(Seq::empty()),
            steps: Ghost(0),
            seed_flag: OrientedFlag { flag: Flag(Vec::new()), orientation: Orientation::Even },
        };
        assert(r.found_flags() =~= Set::empty());
        r
    }

    /// A traversal from `first_flag` through the given flag changes.
    pub fn with_flags(polytope: &'a Abstract, flag_changes: FlagChanges, first_flag: OrientedFlag) -> (r: Self)
        requires
            polytope.wf(),
            polytope.changes_ok(flag_changes@),
            polytope.rank() >= 0 ==> polytope.is_flag(first_flag.flag@),
        ensures
            r.inv(),
            r.source() == *polytope,
            r.changes() == flag_changes@,
            r.seed() == first_flag.flag@,
            r.seed_orientation() == first_flag.orientation,
            r.is_orientable(),
            r.emitted() == Set::<Seq<usize>>::empty(),
            r.started() <==> polytope.rank() < 0,
            polytope.rank() < 0 ==> r.is_done(),
            r.cursor() == 0,
            r.steps_taken() == 0,
            polytope.rank() >= 0 ==> {
                &&& r.found_flags() == set![first_flag.flag@]
                &&& r.orientation_of(first_flag.flag@) == first_flag.orientation
                &&& r.queued() == (if flag_changes@.len() > 0 {
                    seq![first_flag.flag@]
                } else {
                    Seq::empty()
                })
            },
    {
        let n = polytope.ranks.len();
        let first = n < 2;
        let mut found = FlagTable::new();
        let mut queue: VecDeque<OrientedFlag> = VecDeque::new();
        let ghost seed = first_flag.flag@;
        let ghost o = first_flag.orientation;
        let ghost mut paths: Map<Seq<usize>, Seq<usize>> = Map::empty();
        let ghost mut keys: Seq<Seq<usize>> = Seq::empty();
        if !first {
            let ghost key = seed;
            found.insert(first_flag.flag.duplicate(), first_flag.orientation);
            proof {
                paths = paths.insert(key, Seq::empty());
                assert(polytope.apply_path(seed, Seq::<usize>::empty()) == seed);
                assert(found@.dom() =~= set![key]);
                assert(found@.dom().len() == 1);
            }
            if flag_changes.0.len() > 0 {
                queue.push_back(first_flag.duplicate());
                proof {
                    keys = seq![key];
                }
            }
        }
        let r = OrientedFlagIter {
            polytope,
            queue,
            flag_changes,
            flag_idx: 0,
            first,
            found,
            orientable: true,
            seed: Ghost(seed),
            seed_orientation: Ghost(o),
            paths: Ghost(paths),
            emitted: Ghost(Set::empty()),
            queue_keys: Ghost(keys),
            steps: Ghost(0),
            seed_flag: first_flag,
        };
        proof {
            if first {
                assert(r.found_flags() =~= Set::empty());
            } else {
                assert(r.found_flags() =~= set![seed]) by {
                    assert forall|h: Seq<usize>| #[trigger] r.found_flags().contains(h) <==> h == seed by {
                        if r.found@.contains_key(h) {
                            assert(r.found@.dom().contains(h));
                        }
                    }
                }
                assert(r.emitted@.insert(seed) =~= set![seed]);
                if r.queue@.len() > 0 {
                    assert(r.queue_keys@[0] == seed);
                    assert(r.queue_keys@.contains(seed));
                }
            }
        }
        r
    }

    /// A traversal of every flag of the structure, as `new` makes it, where
    /// the structure is well formed; `None` where it is not (the diamond
    /// property fails, or a list is unsorted or points nowhere).
    pub fn try_new(polytope: &'a Abstract) -> (r: Option<Self>)
        ensures
            r is Some <==> polytope.wf(),
            r matches Some(it) ==> {
                &&& it.inv()
                &&& it.source() == *polytope
                &&& it.is_orientable()
                &&& it.emitted() == Set::<Seq<usize>>::empty()
                &&& polytope.rank() >= 0 ==> {
                    &&& it.changes() == Seq::new(polytope.rank() as nat, |i: int| i as usize)
                    &&& polytope.nth_flag(0) == Some(it.seed())
                    &&& it.seed_orientation() == Orientation::Even
                    &&& !it.started()
                }
                &&& polytope.rank() < 0 ==> it.is_done()
            },
    {
        if polytope.is_valid() {
            Some(OrientedFlagIter::new(polytope))
        } else {
            None
        }
    }

    /// A traversal of every flag of the structure: `with_flags` from its
    /// first flag, with even orientation, through every flag change.
    pub fn new(polytope: &'a Abstract) -> (r: Self)
        requires
            polytope.wf(),
        ensures
            r.inv(),
            r.source() == *polytope,
            r.is_orientable(),
            r.emitted() == Set::<Seq<usize>>::empty(),
            polytope.rank() >= 0 ==> {
                &&& r.changes() == Seq::new(polytope.rank() as nat, |i: int| i as usize)
                &&& polytope.nth_flag(0) == Some(r.seed())
                &&& r.seed_orientation() == Orientation::Even
                &&& !r.started()
                &&& r.found_flags() == set![r.seed()]
                &&& r.orientation_of(r.seed()) == Orientation::Even
                &&& r.queued() == (if polytope.rank() > 0 {
                    seq![r.seed()]
                } else {
                    Seq::empty()
                })
            },
            polytope.rank() < 0 ==> r.is_done(),
            r.cursor() == 0,
            r.steps_taken() == 0,
    {
        match polytope.first_flag() {
            Some(first_flag) => {
                let n = polytope.ranks.len();
                let rank = Rank::from_usize(n - 2);
                let changes = FlagChanges::all(rank);
                OrientedFlagIter::with_flags(polytope, changes, OrientedFlag::from(first_flag))
            },
            None => OrientedFlagIter::empty(polytope),
        }
    }

    /// The flag reached by applying the flag change at the cursor to the
    /// flag at the front of the queue, with the opposite orientation.
    fn front_change(&self) -> (r: OrientedFlag)
        requires
            self.inv(),
            self.queue@.len() > 0,
        ensures
            self.source().is_flag(r.flag@),
            r.flag@ == self.polytope.change_spec(
                self.flag_of(self.queue_keys@[0]),
                self.flag_changes@[self.flag_idx as int] as int,
            ),
            r.orientation == self.found@[self.queue_keys@[0]].flipped(),
            is_path_in(self.changes(), self.paths@[self.queue_keys@[0]].push(self.flag_changes@[self.flag_idx as int])),
            self.source().apply_path(self.seed(), self.paths@[self.queue_keys@[0]].push(self.flag_changes@[self.flag_idx as int])) == r.flag@,
            r.orientation == parity(self.seed_orientation(), self.paths@[self.queue_keys@[0]].push(self.flag_changes@[self.flag_idx as int]).len()),
    {
        let p = self.polytope;
        let ghost ch = self.flag_changes@;
        let ghost seed = self.seed@;
        let ghost front = self.queue@[0];
        proof {
            assert(p.is_flag(front.flag@));
        }
        let ghost fkey = self.queue_keys@[0];
        let ghost fpath = self.paths@[fkey];
        proof {
            assert(fkey == front.flag@);
            assert(self.found@.contains_key(fkey));
        }
        let c = self.flag_changes.0[self.flag_idx];
        let new_flag = self.queue[0].change(p, c);
        proof {
            assert(ch.contains(c)) by {
                assert(ch[self.flag_idx as int] == c);
            }
            lemma_path_push(p, ch, seed, fpath, c);
            assert(front.orientation == self.found@[fkey]);
        }
        new_flag
    }

    /// Records a flag reached from the front of the queue by the flag change
    /// at the cursor: a new flag is stored and queued, a known one is checked
    /// for an orientation conflict.
    #[verifier::rlimit(100)]
    fn record(&mut self, new_flag: OrientedFlag, npath: Ghost<Seq<usize>>) -> (res: FlagNext)
        requires
            old(self).inv(),
            old(self).queue@.len() > 0,
            old(self).source().is_flag(new_flag.flag@),
            new_flag.flag@ == old(self).polytope.change_spec(
                old(self).flag_of(old(self).queue_keys@[0]),
                old(self).flag_changes@[old(self).flag_idx as int] as int,
            ),
            new_flag.orientation == old(self).found@[old(self).queue_keys@[0]].flipped(),
            is_path_in(old(self).changes(), npath@),
            old(self).source().apply_path(old(self).seed(), npath@) == new_flag.flag@,
            new_flag.orientation == parity(old(self).seed_orientation(), npath@.len()),
        ensures
            same_traversal(old(self), final(self)),
            final(self).started() == old(self).started(),
            final(self).flag_idx == old(self).flag_idx,
            final(self).steps == old(self).steps,
            final(self).queue@.len() >= old(self).queue@.len(),
            final(self).queue_keys@[0] == old(self).queue_keys@[0],
            final(self).done_with(final(self).queue_keys@[0], final(self).flag_changes@[final(self).flag_idx as int]),
            (res is New && res->New_0 is Flag) <==> !old(self).found@.contains_key(new_flag.flag@),
            (res is New && res->New_0 is NonOrientable) <==> old(self).found@.contains_key(new_flag.flag@)
                && old(self).orientable && old(self).found@[new_flag.flag@] != new_flag.orientation,
            final(self).queue_keys@ == (if res is New && res->New_0 is Flag {
                old(self).queue_keys@.push(new_flag.flag@)
            } else {
                old(self).queue_keys@
            }),
            match res {
                FlagNext::Done => false,
                FlagNext::Repeat => {
                    &&& final(self).emitted() == old(self).emitted()
                    &&& final(self).is_orientable() == old(self).is_orientable()
                    &&& final(self).measure() == old(self).measure()
                    &&& final(self).queue@.len() == old(self).queue@.len()
                },
                FlagNext::New(FlagEvent::Flag(of)) => new_flag_step(old(self), final(self), of)
                    && of.flag@ == new_flag.flag@ && of.orientation == new_flag.orientation,
                FlagNext::New(FlagEvent::NonOrientable) => non_orientable_step(old(self), final(self))
                    && final(self).queue@.len() == old(self).queue@.len(),
            },
    {
        let p = self.polytope;
        let ghost ch = self.flag_changes@;
        let ghost seed = self.seed@;
        let ghost dom0 = self.found@.dom();
        let ghost k0 = self.queue_keys@[0];
        let ghost c0 = ch[self.flag_idx as int];
        let ghost key = new_flag.flag@;
        proof {
            old(self).lemma_found_bound();
            assert(self.found@.contains_key(k0));
        }
        let stored = self.found.get(&new_flag.flag);
        match stored {
            Some(o) => {
                proof {
                    assert(self.found@.contains_key(key));
                }
                if self.orientable && new_flag.orientation != o {
                    self.orientable = false;
                    proof {
                        let w1 = self.paths@[key];
                        assert(p.apply_path(seed, w1) == p.apply_path(seed, npath@));
                        assert(w1.len() % 2 != npath@.len() % 2);
                        assert(p.parity_conflict(ch, seed));
                        self.lemma_done_with_weaken(old(self));
                    }
                    FlagNext::New(FlagEvent::NonOrientable)
                } else {
                    FlagNext::Repeat
                }
            },
            None => {
                self.found.insert(new_flag.flag.duplicate(), new_flag.orientation);
                proof {
                    self.paths@ = self.paths@.insert(key, npath@);
                    assert(!self.emitted@.contains(new_flag.flag@));
                    self.emitted@ = self.emitted@.insert(new_flag.flag@);
                    assert(self.found@.dom() =~= dom0.insert(key));
                    assert(self.found@.dom().len() == dom0.len() + 1);
                    let ln = self.flag_changes@.len() as int;
                    let qn = old(self).queue@.len() as int;
                    let f = dom0.len() as int;
                    assert((qn + 1) * ln == qn * ln + ln && (f + 1) * ln == f * ln + ln) by (nonlinear_arith);
                    assert(self.found_flags() =~= old(self).found_flags().insert(new_flag.flag@));
                    if !self.first {
                        assert(self.emitted@.insert(seed) =~= old(self).emitted@.insert(seed).insert(new_flag.flag@));
                        assert(self.emitted@.insert(seed) == self.found_flags());
                    }
                    assert(self.emitted@.subset_of(self.found_flags()));
                    self.queue_keys@ = self.queue_keys@.push(key);
                }
                self.queue.push_back(new_flag.duplicate());
                proof {
                    let keys0 = old(self).queue_keys@;
                    assert(!keys0.contains(key)) by {
                        if keys0.contains(key) {
                            let i = choose|i: int| 0 <= i < keys0.len() && keys0[i] == key;
                            assert(old(self).queue@[i].flag@ == old(self).queue@[i].flag@);
                        }
                    }
                    assert(self.found_ok());
                    assert(self.queue_ok()) by {
                        assert forall|i: int| 0 <= i < self.queue@.len() implies #[trigger] self.queue@[i] == (
                            if i < old(self).queue@.len() { old(self).queue@[i] } else { self.queue@[i] }) by {}
                    }
                    self.lemma_found_bound();
                    self.lemma_done_with_grow(old(self));
                    assert(self.queue_keys@[0] == keys0[0]);
                    assert(self.queue_keys@.contains(key)) by {
                        assert(self.queue_keys@[keys0.len() as int] == key);
                    }
                    assert forall|k: Seq<usize>| #[trigger] self.found@.contains_key(k) && !self.queue_keys@.contains(k)
                        implies forall|t: int| 0 <= t < ch.len() ==> #[trigger] self.done_with(k, ch[t]) by {
                        assert(k != key);
                        if keys0.contains(k) {
                            let i = choose|i: int| 0 <= i < keys0.len() && keys0[i] == k;
                            assert(self.queue_keys@[i] == k);
                        }
                        assert(old(self).found@.contains_key(k));
                    }
                    assert(self.progress_ok());
                }
                FlagNext::New(FlagEvent::Flag(new_flag))
            },
        }
    }

    /// Moves the cursor on to the next flag change, or past the front of the
    /// queue once every flag change has been applied to it.
    #[verifier::rlimit(100)]
    fn move_on(&mut self)
        requires
            old(self).inv(),
            old(self).queue@.len() > 0,
            old(self).done_with(old(self).queue_keys@[0], old(self).flag_changes@[old(self).flag_idx as int]),
        ensures
            same_traversal(old(self), final(self)),
            final(self).started() == old(self).started(),
            final(self).found == old(self).found,
            final(self).emitted == old(self).emitted,
            final(self).orientable == old(self).orientable,
            final(self).measure() == old(self).measure(),
            final(self).step_measure() < old(self).step_measure(),
            final(self).steps@ == old(self).steps@ + 1,
            old(self).flag_idx + 1 == old(self).flag_changes@.len() ==> final(self).queue_keys@
                == old(self).queue_keys@.drop_first() && final(self).flag_idx == 0,
            old(self).flag_idx + 1 < old(self).flag_changes@.len() ==> final(self).queue_keys@
                == old(self).queue_keys@ && final(self).flag_idx == old(self).flag_idx + 1,
    {
        let ghost q0 = self.queue@;
        let ghost keys0 = self.queue_keys@;
        let ghost ch = self.flag_changes@;
        let l = self.flag_changes.0.len();
        let ghost i0 = self.flag_idx as int;
        proof {
            let qn = q0.len() as int;
            let ln = l as int;
            assert(qn * ln - i0 > 0) by (nonlinear_arith)
                requires
                    qn >= 1,
                    0 <= i0 < ln,
            ;
        }
        if self.flag_idx + 1 == l {
            self.queue.pop_front();
            self.flag_idx = 0;
            proof {
                self.steps@ = self.steps@ + 1;
                let qn = q0.len() as int;
                let ln = l as int;
                let f = self.found@.dom().len() as int;
                let st = old(self).steps@ as int;
                assert(st + 1 + (qn - 1) * ln == f * ln) by (nonlinear_arith)
                    requires
                        st + qn * ln == f * ln + i0,
                        i0 == ln - 1,
                ;
                self.lemma_done_with_weaken(old(self));
                let qn = q0.len() as int;
                let ln = l as int;
                assert(0 <= (qn - 1) * ln < qn * ln - i0) by (nonlinear_arith)
                    requires
                        qn >= 1,
                        i0 == ln - 1,
                        i0 >= 0,
                ;
                assert(self.queue@.len() == qn - 1);
                assert forall|i: int| 0 <= i < self.queue@.len() implies #[trigger] self.queue@[i]
                    == q0[i + 1] by {}
                self.queue_keys@ = keys0.subrange(1, keys0.len() as int);
                assert(self.queue_keys@ =~= keys0.drop_first());
                let k0 = keys0[0];
                assert forall|k: Seq<usize>| #[trigger] self.found@.contains_key(k) && !self.queue_keys@.contains(k)
                    implies forall|t: int| 0 <= t < ch.len() ==> #[trigger] self.done_with(k, ch[t]) by {
                    if k != k0 {
                        if keys0.contains(k) {
                            let i = choose|i: int| 0 <= i < keys0.len() && keys0[i] == k;
                            assert(self.queue_keys@[i - 1] == k);
                            assert(self.queue_keys@.contains(k));
                        }
                        assert(old(self).found@.contains_key(k));
                        assert forall|t: int| 0 <= t < ch.len() implies #[trigger] self.done_with(k, ch[t]) by {
                            assert(old(self).done_with(k, ch[t]));
                        }
                    } else {
                        assert forall|t: int| 0 <= t < ch.len() implies #[trigger] self.done_with(k, ch[t]) by {
                            if t < i0 {
                                assert(old(self).done_with(keys0[0], ch[t]));
                            }
                        }
                    }
                }
                if self.queue_keys@.len() > 0 {
                    assert(self.queue_keys@[0] == keys0[1]);
                }
            }
        } else {
            self.flag_idx = self.flag_idx + 1;
            proof {
                self.steps@ = self.steps@ + 1;
                self.lemma_done_with_weaken(old(self));
                assert forall|t: int| 0 <= t < self.flag_idx implies #[trigger] self.done_with(self.queue_keys@[0], ch[t]) by {
                    if t < i0 {
                        assert(old(self).done_with(keys0[0], ch[t]));
                    }
                }
            }
        }
    }

    /// One step of the traversal: applies the flag change at the cursor to
    /// the flag at the front of the queue, records the flag it reaches, and
    /// moves the cursor on (to the next flag of the queue after the last
    /// change); `Done` once the queue is empty.
    pub fn try_next(&mut self) -> (res: FlagNext)
        requires
            old(self).inv(),
        ensures
            same_traversal(old(self), final(self)),
            final(self).started() == old(self).started(),
            res is Done <==> old(self).exhausted(),
            !(res is Done) ==> final(self).steps_taken() == old(self).steps_taken() + 1,
            res is Done ==> final(self).steps_taken() == old(self).steps_taken(),
            res is Done ==> old(self).steps_taken() == old(self).found_flags().len() * old(self).changes().len(),
            !old(self).exhausted() ==> old(self).steps_taken() < old(self).found_flags().len()
                * old(self).changes().len(),
            !old(self).exhausted() ==> fifo_step(old(self), final(self), res),
            match res {
                FlagNext::Done => final(self).exhausted() && final(self).emitted() == old(self).emitted()
                    && final(self).is_orientable() == old(self).is_orientable()
                    && final(self).measure() == old(self).measure(),
                FlagNext::Repeat => {
                    &&& final(self).emitted() == old(self).emitted()
                    &&& final(self).is_orientable() == old(self).is_orientable()
                    &&& final(self).measure() == old(self).measure()
                    &&& final(self).step_measure() < old(self).step_measure()
                },
                FlagNext::New(FlagEvent::Flag(of)) => new_flag_step(old(self), final(self), of)
                    && adjacent_step(old(self), of),
                FlagNext::New(FlagEvent::NonOrientable) => non_orientable_step(old(self), final(self)),
            },
    {
        proof {
            self.lemma_found_flags_dom();
            let ln = self.flag_changes@.len() as int;
            let qn = self.queue@.len() as int;
            let f = self.found@.dom().len() as int;
            let st = self.steps@ as int;
            let i0 = self.flag_idx as int;
            if qn > 0 {
                assert(st < f * ln) by (nonlinear_arith)
                    requires
                        st + qn * ln == f * ln + i0,
                        qn >= 1,
                        0 <= i0 < ln,
                ;
            } else {
                assert(qn * ln == 0) by (nonlinear_arith)
                    requires
                        qn == 0,
                ;
            }
        }
        if self.queue.len() == 0 {
            return FlagNext::Done;
        }
        let ghost h = self.queue_keys@[0];
        let ghost c = self.flag_changes@[self.flag_idx as int];
        proof {
            assert(self.queue_ok());
            assert(self.queue@[0].flag@ == h);
            assert(self.found@.contains_key(h));
            assert(self.found_flags().contains(h));
            assert(self.emitted().contains(h) || h == self.seed());
            assert(self.changes().contains(c));
            assert(self.flag_of(h) == h);
            assert(self.polytope.rank() >= 0);
            assert(self.found@.contains_key(self.seed@));
        }
        let new_flag = self.front_change();
        let ghost npath = self.paths@[self.queue_keys@[0]].push(self.flag_changes@[self.flag_idx as int]);
        let res = self.record(new_flag, Ghost(npath));
        let ghost mid = *self;
        self.move_on();
        proof {
            if res is Repeat {
                assert(mid.step_measure() == old(self).step_measure());
            }
            assert(old(self).found_flags().contains(new_flag.flag@) <==> old(self).found@.contains_key(
                new_flag.flag@,
            ));
            if old(self).found@.contains_key(new_flag.flag@) {
                assert(new_flag.flag@ != old(self).seed() || old(self).found@.contains_key(old(self).seed()));
            }
        }
        res
    }

    /// Hands out the seed, the first flag of the traversal.
    fn emit_seed(&mut self) -> (f: OrientedFlag)
        requires
            old(self).inv(),
            !old(self).started(),
        ensures
            same_traversal(old(self), final(self)),
            final(self).started(),
            new_flag_step(old(self), final(self), f),
            f.flag@ == old(self).seed(),
            f.orientation == old(self).seed_orientation(),
            final(self).steps == old(self).steps,
    {
        let p = self.polytope;
        self.first = true;
        let f = self.seed_flag.duplicate();
        proof {
            let seed = self.seed@;
            assert(self.found@.contains_key(seed));
            assert(self.found_flags().contains(seed));
            self.emitted@ = self.emitted@.insert(f.flag@);
            assert(p.apply_path(seed, Seq::<usize>::empty()) == seed);
            assert(is_path_in(self.flag_changes@, Seq::<usize>::empty()));
            assert(f.orientation == parity(self.seed_orientation@, 0));
            assert(p.rank() >= 0);
            assert(f.flag@ == seed);
            assert(self.emitted@ == self.found_flags());
            assert(self.emitted@.subset_of(self.found_flags()));
            self.lemma_done_with_weaken(old(self));
            assert(self.progress_ok());
        }
        assert(is_path_in(old(self).changes(), Seq::<usize>::empty()) && old(self).source().apply_path(
            old(self).seed(),
            Seq::<usize>::empty(),
        ) == f.flag@ && f.orientation == parity(old(self).seed_orientation(), 0));
        assert(new_flag_step(old(self), self, f));
        f
    }

    /// Facts about applied flag changes survive the loss of orientability.
    proof fn lemma_done_with_weaken(&self, prev: &Self)
        requires
            self.found == prev.found,
            self.paths == prev.paths,
            self.polytope == prev.polytope,
            self.seed == prev.seed,
            self.orientable ==> prev.orientable,
        ensures
            forall|k: Seq<usize>, c: usize| prev.done_with(k, c) ==> #[trigger] self.done_with(k, c),
    {
        assert forall|k: Seq<usize>, c: usize| prev.done_with(k, c) implies #[trigger] self.done_with(k, c) by {
            assert(self.flag_of(k) == prev.flag_of(k));
        }
    }

    /// Facts about applied flag changes survive the finding of a new flag.
    proof fn lemma_done_with_grow(&self, prev: &Self)
        requires
            forall|k: Seq<usize>| #[trigger] prev.found@.contains_key(k) ==> self.found@.contains_key(k) && self.found@[k] == prev.found@[k] && self.paths@[k] == prev.paths@[k],
            self.orientable == prev.orientable,
            self.polytope == prev.polytope,
            self.seed == prev.seed,
        ensures
            forall|k: Seq<usize>, c: usize| prev.found@.contains_key(k) && prev.done_with(k, c) ==> #[trigger] self.done_with(k, c),
    {
        assert forall|k: Seq<usize>, c: usize| prev.found@.contains_key(k) && prev.done_with(k, c) implies #[trigger] self.done_with(k, c) by {
            assert(self.flag_of(k) == prev.flag_of(k));
            let kg = self.polytope.change_spec(self.flag_of(k), c as int);
            assert(prev.found@.contains_key(kg));
        }
    }
}

impl<'a> OrientedFlagIter<'a> {
    /// The next flag event: the seed flag first, then each newly found flag,
    /// and the first orientation conflict; `None` once the traversal is over.
    pub fn next(&mut self) -> (res: Option<FlagEvent>)
        requires
            old(self).inv(),
        ensures
            same_traversal(old(self), final(self)),
            final(self).started(),
            match res {
                None => final(self).is_done() && final(self).emitted() == old(self).emitted()
                    && final(self).is_orientable() == old(self).is_orientable(),
                Some(FlagEvent::Flag(of)) => new_flag_step(old(self), final(self), of),
                Some(FlagEvent::NonOrientable) => non_orientable_step(old(self), final(self)),
            },
            !old(self).started() ==> (res matches Some(FlagEvent::Flag(of)) && of.flag@ == old(
                self,
            ).seed() && of.orientation == old(self).seed_orientation()),
            old(self).started() ==> (res matches Some(FlagEvent::Flag(of)) ==> adjacent_step(old(self), of)),
    {
        if !self.first {
            let f = self.emit_seed();
            return Some(FlagEvent::Flag(f));
        }
        proof {
            assert(self.found@.contains_key(self.seed@) ==> self.emitted().contains(self.seed@)) by {
                if self.found@.contains_key(self.seed@) {
                    assert(self.found_flags().contains(self.seed@));
                }
            }
        }
        loop
            invariant
                same_traversal(old(self), self),
                self.started(),
                old(self).started(),
                self.emitted() == old(self).emitted(),
                self.is_orientable() == old(self).is_orientable(),
                self.measure() == old(self).measure(),
                self.source().rank() >= 0 ==> self.emitted().contains(self.seed()),
            decreases self.step_measure(),
        {
            let ghost cur = *self;
            proof {
                if !cur.exhausted() {
                    assert(cur.source().rank() >= 0) by {
                        assert(cur.queue_ok());
                        assert(cur.polytope.is_flag(cur.queue@[0].flag@));
                    }
                }
            }
            match self.try_next() {
                FlagNext::New(event) => {
                    proof {
                        if event is Flag {
                            let of = event->Flag_0;
                            let (h, c) = choose|h: Seq<usize>, c: usize|
                                (#[trigger] cur.emitted().contains(h) || h == cur.seed()) && #[trigger] cur.changes().contains(c)
                                    && of.flag@ == cur.source().change_spec(h, c as int) && of.orientation
                                    == cur.orientation_of(h).flipped();
                            assert(old(self).emitted().contains(h) && old(self).changes().contains(c));
                            assert(adjacent_step(old(self), of));
                        }
                    }
                    return Some(event);
                },
                FlagNext::Done => {
                    return None;
                },
                FlagNext::Repeat => {},
            }
        }
    }

    /// The next flag, passing over the orientation conflict: the traversal
    /// seen as a sequence of flags only.
    pub fn filter_flags(&mut self) -> (res: Option<OrientedFlag>)
        requires
            old(self).inv(),
        ensures
            same_traversal(old(self), final(self)),
            final(self).started(),
            match res {
                None => final(self).is_done() && final(self).emitted() == old(self).emitted(),
                Some(of) => {
                    &&& old(self).source().is_flag(of.flag@)
                    &&& !old(self).emitted().contains(of.flag@)
                    &&& final(self).emitted() == old(self).emitted().insert(of.flag@)
                    &&& old(self).source().reachable(old(self).changes(), old(self).seed(), of.flag@)
                    &&& final(self).measure() < old(self).measure()
                },
            },
            !old(self).started() ==> (res matches Some(of) && of.flag@ == old(self).seed()),
    {
        loop
            invariant
                same_traversal(old(self), self),
                self.emitted() == old(self).emitted(),
                self.measure() <= old(self).measure(),
                self.started() == old(self).started(),
            decreases self.measure(),
        {
            match self.next() {
                Some(FlagEvent::Flag(of)) => {
                    return Some(of);
                },
                Some(FlagEvent::NonOrientable) => {},
                None => {
                    return None;
                },
            }
        }
    }
}

/// Where no flag can be reached from the seed both by an even and by an odd
/// number of the flag changes, the traversal never reports an orientation
/// conflict: it stays orientable, and only an orientable traversal can
/// report one.
pub proof fn lemma_orientable_never_reported(it: &OrientedFlagIter)
    requires
        it.inv(),
        !it.source().parity_conflict(it.changes(), it.seed()),
    ensures
        it.is_orientable(),
{
}

impl<'a> OrientedFlagIter<'a> {
    /// Once the traversal is over, the flag at the end of every route from
    /// the seed has been found, with the orientation of that route while no
    /// conflict has been seen.
    #[verifier::rlimit(80)]
    proof fn lemma_reach_found(&self, w: Seq<usize>)
        requires
            self.inv(),
            self.exhausted(),
            self.polytope.rank() >= 0,
            is_path_in(self.flag_changes@, w),
        ensures
            self.polytope.is_flag(self.polytope.apply_path(self.seed@, w)),
            self.found@.contains_key(self.polytope.apply_path(self.seed@, w)),
            self.orientable ==> self.found@[self.polytope.apply_path(self.seed@, w)]
                == parity(self.seed_orientation@, w.len()),
        decreases w.len(),
    {
        let p = self.polytope;
        let seed = self.seed@;
        let ch = self.flag_changes@;
        lemma_path_valid(p, ch, seed, w);
        if w.len() > 0 {
            let v = w.drop_last();
            let c = w.last();
            assert(is_path_in(ch, v)) by {
                assert forall|i: int| 0 <= i < v.len() implies ch.contains(#[trigger] v[i]) by {
                    assert(v[i] == w[i]);
                }
            }
            self.lemma_reach_found(v);
            lemma_path_valid(p, ch, seed, v);
            let gv = p.apply_path(seed, v);
            assert(self.found@.contains_key(gv));
            assert(!self.queue_keys@.contains(gv));
            assert(ch.contains(w[w.len() - 1]));
            let t = choose|t: int| 0 <= t < ch.len() && ch[t] == c;
            assert(self.done_with(gv, ch[t]));
        }
    }
}

/// Once the queue is empty the flags found are exactly the flags reachable
/// from the seed: the orbit. So `try_next` reports `Done` after exactly one
/// step per flag change and flag of the orbit.
pub proof fn lemma_exhausted_orbit(it: &OrientedFlagIter)
    requires
        it.inv(),
        it.exhausted(),
        it.source().rank() >= 0,
    ensures
        forall|g: Seq<usize>|
            #[trigger] it.found_flags().contains(g) <==> it.source().reachable(it.changes(), it.seed(), g),
{
    let p = it.source();
    let ch = it.changes();
    let seed = it.seed();
    assert forall|g: Seq<usize>| #[trigger] it.found_flags().contains(g) <==> p.reachable(ch, seed, g) by {
        if it.found_flags().contains(g) {
            assert(it.found@.contains_key(g));
            assert(p.apply_path(seed, it.paths@[g]) == g);
        }
        if p.reachable(ch, seed, g) {
            let w = choose|w: Seq<usize>| is_path_in(ch, w) && p.apply_path(seed, w) == g;
            it.lemma_reach_found(w);
        }
    }
}

/// Once the traversal is over it has handed out every flag reachable from
/// the seed, and it has found an orientation conflict exactly when the flag
/// changes admit one: no conflict can go unreported.
pub proof fn lemma_traversal_complete(it: &OrientedFlagIter)
    requires
        it.inv(),
        it.is_done(),
    ensures
        it.source().rank() >= 0 ==> forall|g: Seq<usize>|
            it.source().reachable(it.changes(), it.seed(), g) ==> #[trigger] it.emitted().contains(g),
        forall|g: Seq<usize>|
            #[trigger] it.emitted().contains(g) ==> it.source().reachable(it.changes(), it.seed(), g),
        it.is_orientable() <==> !it.source().parity_conflict(it.changes(), it.seed()),
{
    assert forall|g: Seq<usize>| #[trigger] it.emitted().contains(g) implies it.source().reachable(
        it.changes(),
        it.seed(),
        g,
    ) by {
        assert(it.found_flags().contains(g));
        assert(it.found@.contains_key(g));
        assert(it.source().apply_path(it.seed(), it.paths@[g]) == g);
    }
    let p = it.source();
    let ch = it.changes();
    let seed = it.seed();
    if p.rank() >= 0 {
        assert forall|g: Seq<usize>| p.reachable(ch, seed, g) implies #[trigger] it.emitted().contains(g) by {
            let w = choose|w: Seq<usize>| is_path_in(ch, w) && p.apply_path(seed, w) == g;
            it.lemma_reach_found(w);
            assert(it.found_flags().contains(g));
        }
        if it.is_orientable() && p.parity_conflict(ch, seed) {
            let (w1, w2) = choose|w1: Seq<usize>, w2: Seq<usize>|
                is_path_in(ch, w1) && is_path_in(ch, w2) && p.apply_path(seed, w1) == p.apply_path(seed, w2)
                    && w1.len() % 2 != w2.len() % 2;
            it.lemma_reach_found(w1);
            it.lemma_reach_found(w2);
        }
    } else {
        assert(ch.len() == 0) by {
            if ch.len() > 0 {
                assert(ch[0] < p.rank());
            }
        }
        if p.parity_conflict(ch, seed) {
            let (w1, w2) = choose|w1: Seq<usize>, w2: Seq<usize>|
                is_path_in(ch, w1) && is_path_in(ch, w2) && p.apply_path(seed, w1) == p.apply_path(seed, w2)
                    && w1.len() % 2 != w2.len() % 2;
            if w1.len() > 0 {
                assert(ch.contains(w1[0]));
            }
            if w2.len() > 0 {
                assert(ch.contains(w2[0]));
            }
        }
    }
}

impl Abstract {
    /// Whether the flags can be oriented consistently: no flag is reached
    /// from the first flag both by an even and by an odd number of flag
    /// changes.
    pub fn orientable(&self) -> (r: bool)
        requires
            self.wf(),
        ensures
            self.rank() >= 0 ==> (self.nth_flag(0) matches Some(f) && (r <==> !self.parity_conflict(
                Seq::new(self.rank() as nat, |i: int| i as usize),
                f,
            ))),
            self.rank() < 0 ==> r,
    {
        let mut it = OrientedFlagIter::new(self);
        let ghost c0 = it.changes();
        let ghost s0 = it.seed();
        loop
            invariant
                it.inv(),
                it.source() == *self,
                it.changes() == c0,
                it.seed() == s0,
                it.is_orientable(),
                self.rank() >= 0 ==> c0 == Seq::new(self.rank() as nat, |i: int| i as usize)
                    && self.nth_flag(0) == Some(s0),
            decreases it.measure(),
        {
            match it.next() {
                Some(FlagEvent::NonOrientable) => {
                    assert(self.parity_conflict(c0, s0));
                    assert(self.rank() >= 0 ==> c0 =~= Seq::new(self.rank() as nat, |i: int| i as usize));
                    return false;
                },
                Some(FlagEvent::Flag(_)) => {},
                None => {
                    proof {
                        lemma_traversal_complete(&it);
                        assert(!self.parity_conflict(c0, s0));
                        assert(self.rank() >= 0 ==> c0 =~= Seq::new(self.rank() as nat, |i: int| i as usize));
                    }
                    return true;
                },
            }
        }
    }
}

/// Where every flag can be reached from the first flag by flag changes (as
/// in every polytope), a finished traversal from the first flag through every
/// flag change has handed out exactly the flags that the full enumeration
/// hands out; both hand out each flag once, so they count the same flags.
pub proof fn lemma_enumerations_agree(p: &Abstract, it: &OrientedFlagIter)
    requires
        p.wf(),
        p.rank() >= 0,
        it.inv(),
        it.is_done(),
        it.source() == *p,
        it.changes() == Seq::new(p.rank() as nat, |i: int| i as usize),
        p.nth_flag(0) == Some(it.seed()),
        forall|g: Seq<usize>| #[trigger] p.is_flag(g) ==> p.reachable(it.changes(), it.seed(), g),
    ensures
        forall|g: Seq<usize>|
            #[trigger] it.emitted().contains(g) <==> exists|k: nat| #[trigger] p.nth_flag(k) == Some(g),
{
    lemma_traversal_complete(it);
    assert forall|g: Seq<usize>| #[trigger] it.emitted().contains(g) <==> exists|k: nat| #[trigger] p.nth_flag(k) == Some(g) by {
        if it.emitted().contains(g) {
            assert(it.found_flags().contains(g));
            crate::flag_iter::lemma_enumeration_exhaustive(p, g);
        }
        if exists|k: nat| #[trigger] p.nth_flag(k) == Some(g) {
            let k = choose|k: nat| #[trigger] p.nth_flag(k) == Some(g);
            crate::flag_iter::lemma_nth_positions_valid(p, k);
            crate::flag_iter::lemma_decoded_is_flag(p, p.nth_positions(k)->0);
            assert(p.is_flag(g));
        }
    }
}

/// The count law: where every flag can be reached from the first flag, a
/// finished traversal from the first flag through every flag change hands
/// out exactly as many flags as the full enumeration, whose length is `len`.
pub proof fn lemma_enumeration_counts_agree(p: &Abstract, it: &OrientedFlagIter, len: nat)
    requires
        p.wf(),
        p.rank() >= 0,
        it.inv(),
        it.is_done(),
        it.source() == *p,
        it.changes() == Seq::new(p.rank() as nat, |i: int| i as usize),
        p.nth_flag(0) == Some(it.seed()),
        forall|g: Seq<usize>| #[trigger] p.is_flag(g) ==> p.reachable(it.changes(), it.seed(), g),
        p.nth_flag(len) is None,
        forall|k: nat| k < len ==> #[trigger] p.nth_flag(k) is Some,
    ensures
        it.emitted().len() == len,
{
    lemma_enumerations_agree(p, it);
    let ks = vstd::set_lib::set_int_range(0, len as int);
    let f = |k: int| p.nth_flag(k as nat)->0;
    assert(vstd::relations::injective_on(f, ks)) by {
        assert forall|a: int, b: int| ks.contains(a) && ks.contains(b) && #[trigger] f(a) == #[trigger] f(b) implies a == b by {
            assert(p.nth_flag(a as nat) is Some && p.nth_flag(b as nat) is Some);
            if a < b {
                crate::flag_iter::lemma_enumeration_no_repeat(p, a as nat, b as nat);
            } else if b < a {
                crate::flag_iter::lemma_enumeration_no_repeat(p, b as nat, a as nat);
            }
        }
    }
    vstd::set_lib::lemma_int_range(0, len as int);
    let img = ks.map(f);
    vstd::set_lib::lemma_map_size(ks, img, f);
    assert(img =~= it.emitted()) by {
        assert forall|g: Seq<usize>| img.contains(g) <==> #[trigger] it.emitted().contains(g) by {
            if img.contains(g) {
                let k = choose|k: int| ks.contains(k) && f(k) == g;
                assert(p.nth_flag(k as nat) is Some);
                assert(p.nth_flag(k as nat) == Some(g));
            }
            if it.emitted().contains(g) {
                let k = choose|k: nat| #[trigger] p.nth_flag(k) == Some(g);
                if k >= len {
                    crate::flag_iter::lemma_nth_none_stays(p, len, k);
                }
                assert(ks.contains(k as int));
                assert(f(k as int) == g);
            }
        }
    }
}

} // verus!
