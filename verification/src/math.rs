//! Small integer helpers.
use vstd::prelude::*;

verus! {

/// The quotient rounded up.
pub open spec fn ceil_div(a: nat, b: nat) -> nat {
    if a % b == 0 {
        a / b
    } else {
        a / b + 1
    }
}

/// The quotient rounded up.
pub fn div_ceil(a: usize, b: usize) -> (q: usize)
    requires
        b > 0,
    ensures
        q == ceil_div(a as nat, b as nat),
        q * b >= a,
        q * b < a + b,
        q <= a,
{
    let d: usize = a / b;
    let r: usize = a % b;
    proof {
        lemma_ceil_div(a as nat, b as nat);
    }
    if r == 0 {
        d
    } else {
        d + 1
    }
}

/// The rounded-up quotient is the least number of blocks that cover `a`.
pub proof fn lemma_ceil_div(a: nat, b: nat)
    requires
        b > 0,
    ensures
        ceil_div(a, b) * b >= a,
        ceil_div(a, b) * b < a + b,
        ceil_div(a, b) <= a,
        a > 0 ==> ceil_div(a, b) > 0,
        a % b > 0 ==> a / b < a,
{
    vstd::arithmetic::div_mod::lemma_fundamental_div_mod(a as int, b as int);
    let q = a / b;
    let r = a % b;
    assert(b * q == q * b) by (nonlinear_arith);
    assert((q + 1) * b == q * b + b) by (nonlinear_arith);
    assert(q <= q * b) by (nonlinear_arith)
        requires
            b >= 1,
    ;
    if r > 0 {
        assert(q < a);
    } else if q == 0 {
        assert(q * b == 0) by (nonlinear_arith)
            requires
                q == 0,
        ;
    }
}

/// The smaller of two numbers.
pub open spec fn least(a: nat, b: nat) -> nat {
    if a <= b {
        a
    } else {
        b
    }
}

/// The smaller of two sizes.
pub fn min(a: usize, b: usize) -> (m: usize)
    ensures
        m == least(a as nat, b as nat),
{
    if a <= b {
        a
    } else {
        b
    }
}

} // verus!
