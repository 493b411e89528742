//! A table of flags, each with an orientation: the flags found by a
//! traversal, kept in buckets by a hash of their entries.

use vstd::prelude::*;
use std::collections::HashMap;
use crate::flag::{Flag, Orientation};

verus! {

broadcast use vstd::std_specs::hash::group_hash_axioms;

/// The modulus of the flag hash, a prime below 2^61.
pub const HASH_MODULUS: u64 = 2305843009213693951;

/// The hash of the first `n` entries of `f`: the entries read as digits in
/// base 31, modulo `HASH_MODULUS`.
pub open spec fn hash_upto(f: Seq<usize>, n: int) -> int
    decreases n,
{
    if n <= 0 {
        0
    } else {
        (hash_upto(f, n - 1) * 31 + f[n - 1]) % (HASH_MODULUS as int)
    }
}

/// The hash of a flag.
pub open spec fn flag_hash(f: Seq<usize>) -> int {
    hash_upto(f, f.len() as int)
}

/// Computes the hash of a flag.
fn hash_of(f: &Flag) -> (r: u64)
    ensures
        r == flag_hash(f@),
{
    let mut acc: u64 = 0;
    let mut i: usize = 0;
    while i < f.0.len()
        invariant
            i <= f@.len(),
            acc == hash_upto(f@, i as int),
            acc < HASH_MODULUS,
        decreases f@.len() - i,
    {
        let next: u128 = (acc as u128 * 31 + f.0[i] as u128) % (HASH_MODULUS as u128);
        acc = next as u64;
        i += 1;
    }
    acc
}

/// Whether two lists hold the same entries in the same order.
pub fn same_entries(a: &Vec<usize>, b: &Vec<usize>) -> (r: bool)
    ensures
        r == (a@ == b@),
{
    if a.len() != b.len() {
        return false;
    }
    let mut i: usize = 0;
    while i < a.len()
        invariant
            a@.len() == b@.len(),
            i <= a@.len(),
            forall|j: int| 0 <= j < i ==> a@[j] == b@[j],
        decreases a@.len() - i,
    {
        if a[i] != b[i] {
            return false;
        }
        i += 1;
    }
    assert(a@ =~= b@);
    true
}

/// A finite map from flags to orientations.
pub struct FlagTable {
    /// The entries, by the hash of their flag.
    buckets: HashMap<u64, Vec<(Flag, Orientation)>>,
    /// The map the table stands for.
    contents: Ghost<Map<Seq<usize>, Orientation>>,
}

impl View for FlagTable {
    type V = Map<Seq<usize>, Orientation>;

    closed spec fn view(&self) -> Map<Seq<usize>, Orientation> {
        self.contents@
    }
}

impl FlagTable {
    /// The buckets hold exactly the entries of the map, each under the hash
    /// of its flag.
    pub closed spec fn wf(&self) -> bool {
        &&& self.contents@.dom().finite()
        &&& forall|k: u64, i: int|
            #![trigger self.buckets@[k][i]]
            self.buckets@.contains_key(k) && 0 <= i < self.buckets@[k].len() ==> {
                &&& flag_hash(self.buckets@[k][i].0@) == k
                &&& self.contents@.contains_key(self.buckets@[k][i].0@)
                &&& self.contents@[self.buckets@[k][i].0@] == self.buckets@[k][i].1
            }
        &&& forall|g: Seq<usize>|
            #![trigger self.contents@.contains_key(g)]
            self.contents@.contains_key(g) ==> {
                &&& self.buckets@.contains_key(flag_hash(g) as u64)
                &&& exists|i: int|
                    0 <= i < self.buckets@[flag_hash(g) as u64].len()
                        && #[trigger] self.buckets@[flag_hash(g) as u64][i].0@ == g
            }
    }

    /// An empty table.
    pub fn new() -> (r: FlagTable)
        ensures
            r.wf(),
            r@ == Map::<Seq<usize>, Orientation>::empty(),
    {
        FlagTable { buckets: HashMap::new(), contents: Ghost(Map::empty()) }
    }

    /// The orientation stored for `f`, if any.
    pub fn get(&self, f: &Flag) -> (r: Option<Orientation>)
        requires
            self.wf(),
        ensures
            r == (if self@.contains_key(f@) {
                Some(self@[f@])
            } else {
                None
            }),
    {
        let h = hash_of(f);
        assert(h < HASH_MODULUS);
        match self.buckets.get(&h) {
            None => {
                assert(!self@.contains_key(f@));
                None
            },
            Some(b) => {
                let mut i: usize = 0;
                while i < b.len()
                    invariant
                        self.wf(),
                        self.buckets@.contains_key(h),
                        *b == self.buckets@[h],
                        h == flag_hash(f@),
                        i <= b@.len(),
                        forall|j: int| 0 <= j < i ==> b@[j].0@ != f@,
                    decreases b@.len() - i,
                {
                    if same_entries(&b[i].0.0, &f.0) {
                        assert(self.buckets@[h][i as int].0@ == f@);
                        return Some(b[i].1);
                    }
                    i += 1;
                }
                assert(!self@.contains_key(f@)) by {
                    if self@.contains_key(f@) {
                        let j = choose|j: int|
                            0 <= j < self.buckets@[flag_hash(f@) as u64].len()
                                && #[trigger] self.buckets@[flag_hash(f@) as u64][j].0@ == f@;
                        assert(b@[j].0@ == f@);
                    }
                }
                None
            },
        }
    }

    /// Stores `f` with orientation `o`; `f` must not be stored yet.
    pub fn insert(&mut self, f: Flag, o: Orientation)
        requires
            old(self).wf(),
            !old(self)@.contains_key(f@),
        ensures
            final(self).wf(),
            final(self)@ == old(self)@.insert(f@, o),
    {
        let h = hash_of(&f);
        let ghost g = f@;
        let ghost m0 = self.buckets@;
        let mut b = match self.buckets.remove(&h) {
            Some(b) => b,
            None => Vec::new(),
        };
        let ghost b0 = b@;
        proof {
            if !m0.contains_key(h) {
                assert(b0.len() == 0);
            } else {
                assert(b0 == m0[h]@);
            }
        }
        b.push((f, o));
        self.buckets.insert(h, b);
        proof {
            self.contents@ = self.contents@.insert(g, o);
            let m1 = self.buckets@;
            assert forall|k: u64, i: int|
                #![trigger m1[k][i]]
                m1.contains_key(k) && 0 <= i < m1[k].len() implies {
                    &&& flag_hash(m1[k][i].0@) == k
                    &&& self.contents@.contains_key(m1[k][i].0@)
                    &&& self.contents@[m1[k][i].0@] == m1[k][i].1
                } by {
                if k != h {
                    assert(m1[k] == m0[k]);
                    assert(old(self).buckets@[k][i] == m0[k][i]);
                } else if i < b0.len() {
                    assert(m1[k][i] == m0[k][i]);
                    assert(old(self).buckets@[k][i] == m0[k][i]);
                    assert(m0[k][i].0@ != g);
                }
            }
            assert forall|q: Seq<usize>| #[trigger] self.contents@.contains_key(q) implies {
                &&& m1.contains_key(flag_hash(q) as u64)
                &&& exists|i: int| 0 <= i < m1[flag_hash(q) as u64].len() && #[trigger] m1[flag_hash(q) as u64][i].0@ == q
            } by {
                if q == g {
                    assert(m1[h][b0.len() as int].0@ == q);
                } else {
                    assert(old(self).contents@.contains_key(q));
                    let kq = flag_hash(q) as u64;
                    let i = choose|i: int| 0 <= i < m0[kq].len() && #[trigger] m0[kq][i].0@ == q;
                    if kq == h {
                        assert(m1[kq][i] == m0[kq][i]);
                    } else {
                        assert(m1[kq] == m0[kq]);
                    }
                }
            }
        }
    }
}

} // verus!
