//! A numbering of the flags of an incidence structure: a flag is read as a
//! number in the mixed radix given by the element counts of the ranks. Two
//! flags with the same number are equal, so a structure has no more flags
//! than the product of its element counts.

use vstd::prelude::*;
use vstd::arithmetic::mul::lemma_mul_inequality;
use crate::abs::Abstract;
use crate::flag_iter::{lemma_zero_valid, lemma_decoded_bounds};

verus! {

impl Abstract {
    /// The product of the element counts of the ranks below `n`.
    pub open spec fn place(&self, n: int) -> nat
        decreases n,
    {
        if n <= 0 {
            1
        } else {
            self.place(n - 1) * (self.count(n - 1) as nat)
        }
    }

    /// The number of sequences with one element index per rank: a bound on
    /// the number of flags, and on their codes.
    pub open spec fn flag_space(&self) -> nat {
        self.place(self.rank())
    }
}

/// The number of the first `n` entries of `f`.
pub open spec fn code_upto(p: &Abstract, f: Seq<usize>, n: int) -> nat
    decreases n,
{
    if n <= 0 {
        0
    } else {
        code_upto(p, f, n - 1) + (f[n - 1] as nat) * p.place(n - 1)
    }
}

/// The number of the flag `f`.
pub open spec fn code(p: &Abstract, f: Seq<usize>) -> nat {
    code_upto(p, f, f.len() as int)
}

/// Every rank of a well-formed structure has an element.
pub proof fn lemma_counts_positive(p: &Abstract, t: int)
    requires
        p.wf(),
        0 <= t <= p.rank(),
    ensures
        p.count(t) >= 1,
{
    let z = Seq::new(p.rank() as nat, |r: int| 0usize);
    lemma_zero_valid(p, z, 0);
    lemma_decoded_bounds(p, z, 0, t);
}

/// The places grow with the rank and are never zero.
pub proof fn lemma_place_mono(p: &Abstract, a: int, b: int)
    requires
        p.wf(),
        0 <= a <= b <= p.rank(),
    ensures
        1 <= p.place(a) <= p.place(b),
    decreases b,
{
    if b > a {
        lemma_place_mono(p, a, b - 1);
        lemma_counts_positive(p, b - 1);
        lemma_mul_inequality(1, p.count(b - 1), p.place(b - 1) as int);
        assert(p.place(b - 1) * 1 <= p.place(b - 1) * p.count(b - 1)) by (nonlinear_arith)
            requires
                p.count(b - 1) >= 1,
        ;
    } else if a > 0 {
        lemma_place_mono(p, a - 1, a - 1);
        lemma_counts_positive(p, a - 1);
        assert(p.place(a - 1) * p.count(a - 1) >= 1) by (nonlinear_arith)
            requires
                p.count(a - 1) >= 1,
                p.place(a - 1) >= 1,
        ;
    }
}

/// Entries below the element counts give a number below the place.
pub proof fn lemma_code_bound(p: &Abstract, f: Seq<usize>, n: int)
    requires
        0 <= n <= f.len(),
        forall|r: int| 0 <= r < n ==> #[trigger] f[r] < p.count(r),
    ensures
        code_upto(p, f, n) < p.place(n),
    decreases n,
{
    if n > 0 {
        lemma_code_bound(p, f, n - 1);
        let c = code_upto(p, f, n - 1);
        let a = f[n - 1] as int;
        let q = p.place(n - 1) as int;
        let k = p.count(n - 1);
        assert(c + a * q < q * k) by (nonlinear_arith)
            requires
                0 <= c < q,
                0 <= a < k,
        ;
        assert(p.place(n) == q * k);
    }
}

/// Two sequences with entries below the element counts and the same number
/// agree.
pub proof fn lemma_code_injective(p: &Abstract, f: Seq<usize>, g: Seq<usize>, n: int)
    requires
        0 <= n <= f.len(),
        n <= g.len(),
        forall|r: int| 0 <= r < n ==> #[trigger] f[r] < p.count(r),
        forall|r: int| 0 <= r < n ==> #[trigger] g[r] < p.count(r),
        code_upto(p, f, n) == code_upto(p, g, n),
    ensures
        forall|r: int| 0 <= r < n ==> #[trigger] f[r] == g[r],
    decreases n,
{
    if n > 0 {
        lemma_code_bound(p, f, n - 1);
        lemma_code_bound(p, g, n - 1);
        let c = code_upto(p, f, n - 1) as int;
        let d = code_upto(p, g, n - 1) as int;
        let a = f[n - 1] as int;
        let b = g[n - 1] as int;
        let q = p.place(n - 1) as int;
        assert(a == b && c == d) by (nonlinear_arith)
            requires
                0 <= c < q,
                0 <= d < q,
                0 <= a,
                0 <= b,
                c + a * q == d + b * q,
        {
            if a < b {
                assert(b * q >= (a + 1) * q);
            } else if b < a {
                assert(a * q >= (b + 1) * q);
            }
        }
        lemma_code_injective(p, f, g, n - 1);
    }
}

} // verus!
