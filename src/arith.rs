//! Small facts about integer division used by the geometry proofs.
use vstd::prelude::*;

verus! {

/// A non-negative quotient of a value within `[0, m * d]` by `d` lies in `[0, m]`.
pub proof fn lemma_div_within(s: int, d: int, m: int)
    requires
        d > 0,
        0 <= s <= m * d,
    ensures
        0 <= s / d <= m,
{
    vstd::arithmetic::div_mod::lemma_fundamental_div_mod(s, d);
    assert(0 <= s / d <= m) by (nonlinear_arith)
        requires
            s == d * (s / d) + (s % d),
            0 <= s % d < d,
            d > 0,
            0 <= s <= m * d,
    ;
}

/// Dividing an exact multiple gives back the factor.
pub proof fn lemma_div_exact(v: int, d: int)
    requires
        d > 0,
    ensures
        (v * d) / d == v,
{
    vstd::arithmetic::div_mod::lemma_div_multiples_vanish(v, d);
    assert(v * d == d * v) by (nonlinear_arith);
}

/// A quotient of a value within `[lo * d, hi * d]` by `d` lies in `[lo, hi]`.
pub proof fn lemma_div_between(s: int, d: int, lo: int, hi: int)
    requires
        d > 0,
        lo * d <= s <= hi * d,
    ensures
        lo <= s / d <= hi,
{
    vstd::arithmetic::div_mod::lemma_fundamental_div_mod(s, d);
    assert(lo <= s / d <= hi) by (nonlinear_arith)
        requires
            s == d * (s / d) + (s % d),
            0 <= s % d < d,
            d > 0,
            lo * d <= s <= hi * d,
    ;
}

/// Rounding a negative quotient down through the quotient of its magnitude.
pub proof fn lemma_div_neg(s: int, d: int)
    requires
        d > 0,
        s < 0,
    ensures
        s / d == -((-s + d - 1) / d),
{
    let q = (-s + d - 1) / d;
    vstd::arithmetic::div_mod::lemma_fundamental_div_mod(-s + d - 1, d);
    vstd::arithmetic::div_mod::lemma_fundamental_div_mod(s, d);
    assert(s / d == -q) by (nonlinear_arith)
        requires
            -s + d - 1 == d * q + (-s + d - 1) % d,
            0 <= (-s + d - 1) % d < d,
            s == d * (s / d) + (s % d),
            0 <= s % d < d,
            d > 0,
    ;
}

} // verus!
