//! Deciding whether an incidence structure is well formed, so that the
//! diamond property and the other conditions the flag algorithms rely on are
//! checked where a structure is handed to them.

use vstd::prelude::*;
use crate::abs::{Abstract, common, common_spec, lemma_common_contains, strictly_increasing};

verus! {

/// Whether the entries strictly increase.
fn check_increasing(v: &Vec<usize>) -> (r: bool)
    ensures
        r == strictly_increasing(v@),
{
    let mut k: usize = 1;
    if v.len() == 0 {
        return true;
    }
    while k < v.len()
        invariant
            1 <= k <= v@.len(),
            forall|i: int, j: int| 0 <= i < j < k ==> v@[i] < v@[j],
        decreases v@.len() - k,
    {
        if v[k - 1] >= v[k] {
            return false;
        }
        k += 1;
    }
    true
}

/// Whether every entry lies below `bound`.
fn check_below(v: &Vec<usize>, bound: usize) -> (r: bool)
    ensures
        r == forall|k: int| 0 <= k < v@.len() ==> #[trigger] v@[k] < bound,
{
    let mut k: usize = 0;
    while k < v.len()
        invariant
            k <= v@.len(),
            forall|j: int| 0 <= j < k ==> #[trigger] v@[j] < bound,
        decreases v@.len() - k,
    {
        if v[k] >= bound {
            return false;
        }
        k += 1;
    }
    true
}

/// Whether `x` is an entry.
fn check_contains(v: &Vec<usize>, x: usize) -> (r: bool)
    ensures
        r == v@.contains(x),
{
    let mut k: usize = 0;
    while k < v.len()
        invariant
            k <= v@.len(),
            forall|j: int| 0 <= j < k ==> v@[j] != x,
        decreases v@.len() - k,
    {
        if v[k] == x {
            return true;
        }
        k += 1;
    }
    false
}

impl Abstract {
    /// Every element is well formed.
    pub open spec fn elements_ok(&self) -> bool {
        forall|r: int, i: int|
            -1 <= r <= self.rank() && 0 <= i < self.count(r) ==> #[trigger] self.element_ok(r, i)
    }

    /// Whether element `i` of rank `r` is well formed.
    fn check_element(&self, r: usize, i: usize) -> (b: bool)
        requires
            self.shape_ok(),
            r < self.ranks@.len(),
            i < self.count(r - 1),
        ensures
            b == self.element_ok(r - 1, i as int),
    {
        let n = self.ranks.len();
        let e = &self.ranks[r][i];
        if !check_increasing(&e.subs) || !check_increasing(&e.sups) {
            return false;
        }
        if r == 0 {
            if e.subs.len() != 0 {
                return false;
            }
        } else {
            if e.subs.len() == 0 {
                return false;
            }
            if !check_below(&e.subs, self.ranks[r - 1].len()) {
                return false;
            }
        }
        if r + 1 == n {
            if e.sups.len() != 0 {
                return false;
            }
        } else {
            if !check_below(&e.sups, self.ranks[r + 1].len()) {
                return false;
            }
        }
        proof {
            if r == 0 {
                assert(self.subs(-1, i as int).len() == 0);
            }
            if r + 1 == n {
                assert(self.sups(r - 1, i as int).len() == 0);
            }
        }
        true
    }

    /// Whether every element is well formed.
    fn check_elements(&self) -> (b: bool)
        requires
            self.shape_ok(),
        ensures
            b == self.elements_ok(),
    {
        let n = self.ranks.len();
        let mut r: usize = 0;
        while r < n
            invariant
                self.shape_ok(),
                n == self.ranks@.len(),
                r <= n,
                forall|q: int, i: int| -1 <= q < r - 1 && 0 <= i < self.count(q) ==> #[trigger] self.element_ok(q, i),
            decreases n - r,
        {
            let mut i: usize = 0;
            while i < self.ranks[r].len()
                invariant
                    self.shape_ok(),
                    n == self.ranks@.len(),
                    r < n,
                    i <= self.count(r - 1),
                    forall|q: int, j: int| -1 <= q < r - 1 && 0 <= j < self.count(q) ==> #[trigger] self.element_ok(q, j),
                    forall|j: int| 0 <= j < i ==> #[trigger] self.element_ok(r - 1, j),
                decreases self.count(r - 1) - i,
            {
                if !self.check_element(r, i) {
                    return false;
                }
                i += 1;
            }
            r += 1;
        }
        true
    }
}

impl Abstract {
    /// Subelements and superelements agree everywhere.
    pub open spec fn duals_ok(&self) -> bool {
        forall|r: int, i: int, j: int|
            0 <= r <= self.rank() && 0 <= i < self.count(r) && 0 <= j < self.count(r - 1)
                ==> #[trigger] self.dual_ok(r, i, j)
    }

    /// The diamond property holds everywhere.
    pub open spec fn diamonds_ok(&self) -> bool {
        forall|r: int, a: int, b: int|
            0 <= r < self.rank() && 0 <= a < self.count(r - 1) && 0 <= b < self.count(r + 1)
                ==> #[trigger] self.diamond_ok(r, a, b)
    }

    /// Whether element `i` of list `k` is a superelement of each of its
    /// subelements.
    fn check_down(&self, k: usize, i: usize) -> (b: bool)
        requires
            self.shape_ok(),
            self.elements_ok(),
            1 <= k < self.ranks@.len(),
            i < self.count(k - 1),
        ensures
            b == forall|t: int|
                0 <= t < self.subs(k - 1, i as int).len() ==> self.sups(
                    k - 2,
                    #[trigger] self.subs(k - 1, i as int)[t] as int,
                ).contains(i),
    {
        let subs = &self.ranks[k][i].subs;
        assert(self.element_ok(k - 1, i as int));
        let mut t: usize = 0;
        while t < subs.len()
            invariant
                self.shape_ok(),
                self.elements_ok(),
                1 <= k < self.ranks@.len(),
                i < self.count(k - 1),
                subs@ == self.subs(k - 1, i as int),
                self.element_ok(k - 1, i as int),
                t <= subs@.len(),
                forall|u: int| 0 <= u < t ==> self.sups(k - 2, #[trigger] subs@[u] as int).contains(i),
            decreases subs@.len() - t,
        {
            let s = subs[t];
            assert(s < self.count(k - 2));
            if !check_contains(&self.ranks[k - 1][s].sups, i) {
                return false;
            }
            t += 1;
        }
        true
    }

    /// Whether element `j` of list `k` is a subelement of each of its
    /// superelements.
    fn check_up(&self, k: usize, j: usize) -> (b: bool)
        requires
            self.shape_ok(),
            self.elements_ok(),
            k + 1 < self.ranks@.len(),
            j < self.count(k - 1),
        ensures
            b == forall|t: int|
                0 <= t < self.sups(k - 1, j as int).len() ==> self.subs(
                    k as int,
                    #[trigger] self.sups(k - 1, j as int)[t] as int,
                ).contains(j),
    {
        let n = self.ranks.len();
        let sups = &self.ranks[k][j].sups;
        assert(self.element_ok(k - 1, j as int));
        let mut t: usize = 0;
        while t < sups.len()
            invariant
                self.shape_ok(),
                self.elements_ok(),
                k + 1 < self.ranks@.len(),
                j < self.count(k - 1),
                sups@ == self.sups(k - 1, j as int),
                self.element_ok(k - 1, j as int),
                n == self.ranks@.len(),
                t <= sups@.len(),
                forall|u: int| 0 <= u < t ==> self.subs(k as int, #[trigger] sups@[u] as int).contains(j),
            decreases sups@.len() - t,
        {
            let u = sups[t];
            assert(u < self.count(k as int));
            if !check_contains(&self.ranks[k + 1][u].subs, j) {
                return false;
            }
            t += 1;
        }
        true
    }

    /// Whether subelements and superelements agree everywhere.
    fn check_duality(&self) -> (b: bool)
        requires
            self.shape_ok(),
            self.elements_ok(),
        ensures
            b == self.duals_ok(),
    {
        let n = self.ranks.len();
        let mut k: usize = 1;
        while k < n
            invariant
                self.shape_ok(),
                self.elements_ok(),
                n == self.ranks@.len(),
                1 <= k <= n,
                forall|r: int, i: int, j: int|
                    0 <= r < k - 1 && 0 <= i < self.count(r) && 0 <= j < self.count(r - 1)
                        ==> #[trigger] self.dual_ok(r, i, j),
            decreases n - k,
        {
            let ghost r = k - 1;
            let mut i: usize = 0;
            while i < self.ranks[k].len()
                invariant
                    self.shape_ok(),
                    self.elements_ok(),
                    n == self.ranks@.len(),
                    1 <= k < n,
                    r == k - 1,
                    i <= self.count(r),
                    forall|x: int, t: int|
                        0 <= x < i && 0 <= t < self.subs(r, x).len() ==> self.sups(
                            r - 1,
                            #[trigger] self.subs(r, x)[t] as int,
                        ).contains(x as usize),
                decreases self.count(r) - i,
            {
                if !self.check_down(k, i) {
                    proof {
                        let t = choose|t: int|
                            0 <= t < self.subs(r, i as int).len() && !self.sups(
                                r - 1,
                                #[trigger] self.subs(r, i as int)[t] as int,
                            ).contains(i);
                        let s = self.subs(r, i as int)[t];
                        assert(self.element_ok(r, i as int));
                        assert(self.subs(r, i as int).contains(s));
                        assert(!self.dual_ok(r, i as int, s as int));
                    }
                    return false;
                }
                i += 1;
            }
            let mut j: usize = 0;
            while j < self.ranks[k - 1].len()
                invariant
                    self.shape_ok(),
                    self.elements_ok(),
                    n == self.ranks@.len(),
                    1 <= k < n,
                    r == k - 1,
                    j <= self.count(r - 1),
                    forall|x: int, t: int|
                        0 <= x < j && 0 <= t < self.sups(r - 1, x).len() ==> self.subs(
                            r,
                            #[trigger] self.sups(r - 1, x)[t] as int,
                        ).contains(x as usize),
                decreases self.count(r - 1) - j,
            {
                if !self.check_up(k - 1, j) {
                    proof {
                        let t = choose|t: int|
                            0 <= t < self.sups(r - 1, j as int).len() && !self.subs(
                                r,
                                #[trigger] self.sups(r - 1, j as int)[t] as int,
                            ).contains(j);
                        let u = self.sups(r - 1, j as int)[t];
                        assert(self.element_ok(r - 1, j as int));
                        assert(self.sups(r - 1, j as int).contains(u));
                        assert(!self.dual_ok(r, u as int, j as int));
                    }
                    return false;
                }
                j += 1;
            }
            proof {
                assert forall|i: int, j: int| 0 <= i < self.count(r) && 0 <= j < self.count(r - 1)
                    implies #[trigger] self.dual_ok(r, i, j) by {
                    if self.subs(r, i).contains(j as usize) {
                        let t = choose|t: int| 0 <= t < self.subs(r, i).len() && #[trigger] self.subs(r, i)[t] == j as usize;
                        assert(self.sups(r - 1, self.subs(r, i)[t] as int).contains(i as usize));
                    }
                    if self.sups(r - 1, j).contains(i as usize) {
                        let t = choose|t: int| 0 <= t < self.sups(r - 1, j).len() && #[trigger] self.sups(r - 1, j)[t] == i as usize;
                        assert(self.subs(r, self.sups(r - 1, j)[t] as int).contains(j as usize));
                    }
                }
            }
            k += 1;
        }
        true
    }
}

impl Abstract {
    /// Exactly two elements of rank `r` lie between `a` (rank `r - 1`) and
    /// `b` (rank `r + 1`).
    pub open spec fn two_between(&self, r: int, a: int, b: int) -> bool {
        common_spec(self.sups(r - 1, a), self.subs(r + 1, b)).len() == 2
    }

    /// Whether exactly two elements lie between each subelement and each
    /// superelement of element `c` of list `k`.
    fn check_diamond_at(&self, k: usize, c: usize) -> (b: bool)
        requires
            self.shape_ok(),
            self.elements_ok(),
            1 <= k,
            k + 1 < self.ranks@.len(),
            c < self.count(k - 1),
        ensures
            b == forall|ta: int, tb: int|
                0 <= ta < self.subs(k - 1, c as int).len() && 0 <= tb < self.sups(k - 1, c as int).len()
                    ==> #[trigger] self.two_between(
                    k - 1,
                    self.subs(k - 1, c as int)[ta] as int,
                    self.sups(k - 1, c as int)[tb] as int,
                ),
    {
        let n = self.ranks.len();
        let ghost r = k - 1;
        let el = &self.ranks[k][c];
        assert(self.element_ok(r, c as int));
        let mut ta: usize = 0;
        while ta < el.subs.len()
            invariant
                self.shape_ok(),
                self.elements_ok(),
                n == self.ranks@.len(),
                r == k - 1,
                1 <= k,
                k + 1 < n,
                c < self.count(r),
                el.subs@ == self.subs(r, c as int),
                el.sups@ == self.sups(r, c as int),
                self.element_ok(r, c as int),
                ta <= el.subs@.len(),
                forall|x: int, y: int|
                    0 <= x < ta && 0 <= y < el.sups@.len() ==> #[trigger] self.two_between(
                        r,
                        el.subs@[x] as int,
                        el.sups@[y] as int,
                    ),
            decreases el.subs@.len() - ta,
        {
            let a = el.subs[ta];
            assert(self.element_ok(r - 1, a as int));
            let mut tb: usize = 0;
            while tb < el.sups.len()
                invariant
                    self.shape_ok(),
                    self.elements_ok(),
                    n == self.ranks@.len(),
                    r == k - 1,
                    1 <= k,
                    k + 1 < n,
                    c < self.count(r),
                    el.subs@ == self.subs(r, c as int),
                    el.sups@ == self.sups(r, c as int),
                    self.element_ok(r, c as int),
                    ta < el.subs@.len(),
                    a == el.subs@[ta as int],
                    self.element_ok(r - 1, a as int),
                    tb <= el.sups@.len(),
                    forall|x: int, y: int|
                        0 <= x < ta && 0 <= y < el.sups@.len() ==> #[trigger] self.two_between(
                            r,
                            el.subs@[x] as int,
                            el.sups@[y] as int,
                        ),
                    forall|y: int| 0 <= y < tb ==> #[trigger] self.two_between(r, a as int, el.sups@[y] as int),
                decreases el.sups@.len() - tb,
            {
                let b = el.sups[tb];
                assert(self.element_ok(r + 1, b as int));
                let both = common(&self.ranks[k - 1][a].sups, &self.ranks[k + 1][b].subs);
                if both.len() != 2 {
                    assert(!self.two_between(r, el.subs@[ta as int] as int, el.sups@[tb as int] as int));
                    return false;
                }
                tb += 1;
            }
            ta += 1;
        }
        true
    }

    /// Whether the diamond property holds everywhere.
    fn check_diamonds(&self) -> (b: bool)
        requires
            self.shape_ok(),
            self.elements_ok(),
            self.duals_ok(),
        ensures
            b == self.diamonds_ok(),
    {
        let n = self.ranks.len();
        let mut k: usize = 1;
        while k < n - 1
            invariant
                self.shape_ok(),
                self.elements_ok(),
                self.duals_ok(),
                n == self.ranks@.len(),
                1 <= k <= n,
                forall|r: int, a: int, b: int|
                    0 <= r < k - 1 && 0 <= a < self.count(r - 1) && 0 <= b < self.count(r + 1)
                        ==> #[trigger] self.diamond_ok(r, a, b),
            decreases n - k,
        {
            let ghost r = k - 1;
            let mut c: usize = 0;
            while c < self.ranks[k].len()
                invariant
                    self.shape_ok(),
                    self.elements_ok(),
                    self.duals_ok(),
                    n == self.ranks@.len(),
                    1 <= k,
                    k + 1 < n,
                    r == k - 1,
                    c <= self.count(r),
                    forall|x: int, ta: int, tb: int|
                        0 <= x < c && 0 <= ta < self.subs(r, x).len() && 0 <= tb < self.sups(r, x).len()
                            ==> #[trigger] self.two_between(r, self.subs(r, x)[ta] as int, self.sups(r, x)[tb] as int),
                decreases self.count(r) - c,
            {
                if !self.check_diamond_at(k, c) {
                    proof {
                        let (ta, tb) = choose|ta: int, tb: int|
                            0 <= ta < self.subs(r, c as int).len() && 0 <= tb < self.sups(r, c as int).len()
                                && !#[trigger] self.two_between(
                                r,
                                self.subs(r, c as int)[ta] as int,
                                self.sups(r, c as int)[tb] as int,
                            );
                        let a = self.subs(r, c as int)[ta];
                        let b = self.sups(r, c as int)[tb];
                        assert(self.element_ok(r, c as int));
                        assert(self.subs(r, c as int).contains(a));
                        assert(self.sups(r, c as int).contains(b));
                        assert(self.dual_ok(r, c as int, a as int));
                        assert(self.dual_ok(r + 1, b as int, c as int));
                        lemma_common_contains(self.sups(r - 1, a as int), self.subs(r + 1, b as int), c);
                        assert(!self.diamond_ok(r, a as int, b as int));
                    }
                    return false;
                }
                c += 1;
            }
            let below_count = self.ranks[k - 1].len();
            let above_count = self.ranks[k + 1].len();
            proof {
                assert(below_count == self.count(r - 1) && above_count == self.count(r + 1));
                assert forall|a: int, b: int| 0 <= a < self.count(r - 1) && 0 <= b < self.count(r + 1)
                    implies #[trigger] self.diamond_ok(r, a, b) by {
                    let lo = self.sups(r - 1, a);
                    let hi = self.subs(r + 1, b);
                    let both = common_spec(lo, hi);
                    if both.len() != 0 {
                        let x = both[0];
                        assert(both.contains(x));
                        lemma_common_contains(lo, hi, x);
                        assert(self.element_ok(r - 1, a));
                        let ia = choose|i: int| 0 <= i < lo.len() && lo[i] == x;
                        assert(x < self.count(r));
                        assert(self.dual_ok(r, x as int, a));
                        assert(self.dual_ok(r + 1, b, x as int));
                        let ta = choose|t: int| 0 <= t < self.subs(r, x as int).len() && #[trigger] self.subs(r, x as int)[t] == a as usize;
                        let tb = choose|t: int| 0 <= t < self.sups(r, x as int).len() && #[trigger] self.sups(r, x as int)[t] == b as usize;
                        assert(self.two_between(r, self.subs(r, x as int)[ta] as int, self.sups(r, x as int)[tb] as int));
                    }
                }
            }
            k += 1;
        }
        true
    }

    /// Whether the structure is well formed: one minimal and one maximal
    /// element, sorted lists of existing elements, subelements and
    /// superelements that agree, and the diamond property.
    pub fn is_valid(&self) -> (b: bool)
        ensures
            b == self.wf(),
    {
        let n = self.ranks.len();
        if n == 0 || self.ranks[0].len() != 1 || self.ranks[n - 1].len() != 1 {
            return false;
        }
        if !self.check_elements() {
            return false;
        }
        if !self.check_duality() {
            return false;
        }
        self.check_diamonds()
    }
}

} // verus!
