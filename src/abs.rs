//! Incidence structures: the ranked element lists that the flag algorithms
//! walk, with the conditions under which they are well formed.

use vstd::prelude::*;

verus! {

/// An element of an incidence structure: the indices of its subelements (one
/// rank below) and of its superelements (one rank above).
pub struct Element {
    /// Indices of the subelements, in the list of the rank below.
    pub subs: Vec<usize>,
    /// Indices of the superelements, in the list of the rank above.
    pub sups: Vec<usize>,
}

/// The elements of one rank.
pub type ElementList = Vec<Element>;

/// A ranked incidence structure. `ranks[k]` holds the elements of rank
/// `k - 1`: the first list holds the minimal element, the last one the
/// maximal element.
pub struct Abstract {
    /// The element lists, from rank -1 upwards.
    pub ranks: Vec<ElementList>,
}

/// A sequence whose entries strictly increase.
pub open spec fn strictly_increasing(s: Seq<usize>) -> bool {
    forall|i: int, j: int| 0 <= i < j < s.len() ==> s[i] < s[j]
}

/// The entries of `a` that also occur in `b`, in the order of `a`.
pub open spec fn common_spec(a: Seq<usize>, b: Seq<usize>) -> Seq<usize>
    decreases a.len(),
{
    if a.len() == 0 {
        Seq::empty()
    } else {
        let rest = common_spec(a.drop_last(), b);
        if b.contains(a.last()) {
            rest.push(a.last())
        } else {
            rest
        }
    }
}

/// An entry lies in the common part exactly when it lies in both sequences.
pub proof fn lemma_common_contains(a: Seq<usize>, b: Seq<usize>, x: usize)
    ensures
        common_spec(a, b).contains(x) <==> (a.contains(x) && b.contains(x)),
    decreases a.len(),
{
    if a.len() > 0 {
        lemma_common_contains(a.drop_last(), b, x);
        let rest = common_spec(a.drop_last(), b);
        assert(a == a.drop_last().push(a.last()));
        if a.contains(x) && !a.drop_last().contains(x) {
            let k = choose|k: int| 0 <= k < a.len() && a[k] == x;
            if k < a.len() - 1 {
                assert(a.drop_last()[k] == x);
            }
        }
        if b.contains(a.last()) {
            assert(rest.push(a.last()).last() == a.last());
            if rest.push(a.last()).contains(x) && x != a.last() {
                let k = choose|k: int| 0 <= k < rest.len() + 1 && rest.push(a.last())[k] == x;
                assert(rest[k] == x);
            }
            if rest.contains(x) {
                let k = choose|k: int| 0 <= k < rest.len() && rest[k] == x;
                assert(rest.push(a.last())[k] == x);
            }
        }
        if a.drop_last().contains(x) {
            let k = choose|k: int| 0 <= k < a.drop_last().len() && a.drop_last()[k] == x;
            assert(a[k] == x);
        }
    }
}

/// The common part of a strictly increasing sequence increases strictly, and
/// its entries are bounded by the last entry of `a`.
pub proof fn lemma_common_increasing(a: Seq<usize>, b: Seq<usize>)
    requires
        strictly_increasing(a),
    ensures
        strictly_increasing(common_spec(a, b)),
        common_spec(a, b).len() <= a.len(),
        forall|k: int|
            0 <= k < common_spec(a, b).len() ==> #[trigger] common_spec(a, b)[k] <= a.last(),
    decreases a.len(),
{
    if a.len() > 0 {
        let p = a.drop_last();
        lemma_common_increasing(p, b);
        let rest = common_spec(p, b);
        if p.len() > 0 {
            assert forall|k: int| 0 <= k < rest.len() implies rest[k] < a.last() by {
                assert(rest[k] <= p.last());
                assert(p.last() == a[a.len() - 2]);
            }
        }
    }
}

/// Entries of `a` beyond every entry of `b` add nothing to the common part.
proof fn lemma_common_tail(a: Seq<usize>, b: Seq<usize>, i: int, n: int)
    requires
        0 <= i < a.len(),
        i <= n <= a.len(),
        strictly_increasing(a),
        forall|k: int| 0 <= k < b.len() ==> #[trigger] b[k] < a[i],
    ensures
        common_spec(a.take(n), b) == common_spec(a.take(i), b),
    decreases n - i,
{
    if n > i {
        lemma_common_tail(a, b, i, n - 1);
        assert(a.take(n).drop_last() == a.take(n - 1));
        assert(!b.contains(a[n - 1])) by {
            if b.contains(a[n - 1]) {
                let k = choose|k: int| 0 <= k < b.len() && b[k] == a[n - 1];
                assert(a[i] <= a[n - 1]);
            }
        }
    }
}

impl Abstract {
    /// The rank of the structure: the number of element lists minus two.
    pub open spec fn rank(&self) -> int {
        self.ranks@.len() - 2
    }

    /// The number of elements of rank `r`.
    pub open spec fn count(&self, r: int) -> int {
        self.ranks@[r + 1]@.len() as int
    }

    /// The subelements of the element of rank `r` with index `i`.
    pub open spec fn subs(&self, r: int, i: int) -> Seq<usize> {
        self.ranks@[r + 1]@[i].subs@
    }

    /// The superelements of the element of rank `r` with index `i`.
    pub open spec fn sups(&self, r: int, i: int) -> Seq<usize> {
        self.ranks@[r + 1]@[i].sups@
    }

    /// One minimal element, and one maximal element unless the structure is
    /// the nullitope.
    pub open spec fn shape_ok(&self) -> bool {
        &&& self.ranks@.len() >= 1
        &&& self.count(-1) == 1
        &&& self.count(self.rank()) == 1
    }

    /// The lists of one element are sorted, point at existing elements, and
    /// fit in memory; every element but the minimal one has a subelement.
    pub open spec fn element_ok(&self, r: int, i: int) -> bool {
        &&& strictly_increasing(self.subs(r, i))
        &&& strictly_increasing(self.sups(r, i))
        &&& self.subs(r, i).len() <= usize::MAX
        &&& forall|k: int|
            0 <= k < self.subs(r, i).len() ==> #[trigger] self.subs(r, i)[k] < self.count(r - 1)
        &&& forall|k: int|
            0 <= k < self.sups(r, i).len() ==> #[trigger] self.sups(r, i)[k] < self.count(r + 1)
        &&& (r == -1 ==> self.subs(r, i).len() == 0)
        &&& (r >= 0 ==> self.subs(r, i).len() > 0)
        &&& (r == self.rank() ==> self.sups(r, i).len() == 0)
    }

    /// `j` is a subelement of `i` (rank `r`) exactly when `i` is a
    /// superelement of `j` (rank `r - 1`).
    pub open spec fn dual_ok(&self, r: int, i: int, j: int) -> bool {
        self.subs(r, i).contains(j as usize) <==> self.sups(r - 1, j).contains(i as usize)
    }

    /// The diamond property between the element `a` of rank `r - 1` and the
    /// element `b` of rank `r + 1`: either nothing lies between them, or
    /// exactly two elements do.
    pub open spec fn diamond_ok(&self, r: int, a: int, b: int) -> bool {
        let c = common_spec(self.sups(r - 1, a), self.subs(r + 1, b));
        c.len() == 0 || c.len() == 2
    }

    /// The structure is sorted, consistent, and has the diamond property.
    pub open spec fn wf(&self) -> bool {
        &&& self.shape_ok()
        &&& forall|r: int, i: int|
            -1 <= r <= self.rank() && 0 <= i < self.count(r) ==> #[trigger] self.element_ok(r, i)
        &&& forall|r: int, i: int, j: int|
            0 <= r <= self.rank() && 0 <= i < self.count(r) && 0 <= j < self.count(r - 1)
                ==> #[trigger] self.dual_ok(r, i, j)
        &&& forall|r: int, a: int, b: int|
            0 <= r < self.rank() && 0 <= a < self.count(r - 1) && 0 <= b < self.count(r + 1)
                ==> #[trigger] self.diamond_ok(r, a, b)
    }
}

/// The entries common to two strictly increasing lists, in increasing order.
pub fn common(vec0: &Vec<usize>, vec1: &Vec<usize>) -> (r: Vec<usize>)
    requires
        strictly_increasing(vec0@),
        strictly_increasing(vec1@),
    ensures
        r@ == common_spec(vec0@, vec1@),
{
    let mut common: Vec<usize> = Vec::new();
    let mut i: usize = 0;
    let mut j: usize = 0;
    while i < vec0.len() && j < vec1.len()
        invariant
            i <= vec0.len(),
            j <= vec1.len(),
            strictly_increasing(vec0@),
            strictly_increasing(vec1@),
            common@ == common_spec(vec0@.take(i as int), vec1@),
            i < vec0.len() ==> forall|k: int| 0 <= k < j ==> #[trigger] vec1@[k] < vec0@[i as int],
        decreases vec0.len() - i + vec1.len() - j,
    {
        let a = vec0[i];
        let b = vec1[j];
        assert(vec0@.take(i + 1).drop_last() == vec0@.take(i as int));
        if a == b {
            assert(vec1@.contains(a));
            common.push(a);
            i += 1;
        } else if a > b {
            j += 1;
        } else {
            assert(!vec1@.contains(a)) by {
                if vec1@.contains(a) {
                    let k = choose|k: int| 0 <= k < vec1@.len() && vec1@[k] == a;
                    if k >= j {
                        assert(vec1@[k] >= b);
                    }
                }
            }
            i += 1;
        }
        if i < vec0.len() {
            assert forall|k: int| 0 <= k < j implies #[trigger] vec1@[k] < vec0@[i as int] by {
                if a <= b {
                    assert(vec0@[i - 1] < vec0@[i as int]);
                }
            }
        }
    }
    proof {
        if i < vec0.len() {
            lemma_common_tail(vec0@, vec1@, i as int, vec0@.len() as int);
        }
        assert(vec0@.take(vec0@.len() as int) == vec0@);
    }
    common
}

} // verus!
