//! The combinatorial core of abstract polytopes: ranks, incidence
//! structures, flags and flag changes, full and oriented flag enumeration,
//! and flag orbits.

pub mod abs;
pub mod builder;
pub mod cd;
pub mod code;
pub mod flag;
pub mod flag_iter;
pub mod flag_set;
pub mod oriented;
pub mod rank;
pub mod table;
pub mod validate;

use vstd::prelude::*;

verus! {

/// `n!`.
pub open spec fn fact(n: nat) -> nat
    decreases n,
{
    if n == 0 {
        1
    } else {
        n * fact((n - 1) as nat)
    }
}

/// `n!`, for `n` up to 12 (the largest whose factorial fits in a `u32`).
pub fn factorial(n: usize) -> (r: u32)
    requires
        n <= 12,
    ensures
        r == fact(n as nat),
{
    proof {
        assert(fact(0) == 1);
        assert(fact(1) == 1);
        assert(fact(2) == 2);
        assert(fact(3) == 6);
        assert(fact(4) == 24);
        assert(fact(5) == 120);
        assert(fact(6) == 720);
        assert(fact(7) == 5040);
        assert(fact(8) == 40320);
        assert(fact(9) == 362880);
        assert(fact(10) == 3628800);
        assert(fact(11) == 39916800);
        assert(fact(12) == 479001600);
    }
    let mut acc: u32 = 1;
    let mut i: usize = 0;
    while i < n
        invariant
            i <= n <= 12,
            acc == fact(i as nat),
            fact(12) == 479001600,
        decreases n - i,
    {
        proof {
            lemma_fact_mono((i + 1) as nat, 12);
            assert(fact((i + 1) as nat) == (i + 1) * fact(i as nat));
            vstd::arithmetic::mul::lemma_mul_is_commutative(acc as int, (i + 1) as int);
        }
        i += 1;
        acc = acc * (i as u32);
    }
    acc
}

proof fn lemma_fact_mono(a: nat, b: nat)
    requires
        a <= b,
    ensures
        fact(a) <= fact(b),
        fact(a) >= 1,
    decreases b,
{
    if b > a {
        lemma_fact_mono(a, (b - 1) as nat);
        assert(b * fact((b - 1) as nat) >= fact((b - 1) as nat)) by (nonlinear_arith)
            requires
                b >= 1,
                fact((b - 1) as nat) >= 1,
        ;
    } else if a > 0 {
        lemma_fact_mono((a - 1) as nat, (a - 1) as nat);
        assert(a * fact((a - 1) as nat) >= 1) by (nonlinear_arith)
            requires
                a >= 1,
                fact((a - 1) as nat) >= 1,
        ;
    }
}

} // verus!
