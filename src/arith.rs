//! Facts about floor division that the conversion proofs rest on.
use vstd::prelude::*;

verus! {

/// A quotient brackets its dividend: `d * (n / d) <= n < d * (n / d) + d`.
pub proof fn lemma_div_bounds(n: int, d: int)
    requires
        d > 0,
    ensures
        d * (n / d) <= n < d * (n / d) + d,
{
    vstd::arithmetic::div_mod::lemma_fundamental_div_mod(n, d);
    vstd::arithmetic::div_mod::lemma_mod_bound(n, d);
}

/// A quotient is characterised by its bracket.
pub proof fn lemma_div_unique(n: int, d: int, q: int)
    requires
        d > 0,
        d * q <= n < d * q + d,
    ensures
        n / d == q,
{
    lemma_div_bounds(n, d);
    let q0 = n / d;
    if q0 < q {
        assert(d * q0 + d <= d * q) by (nonlinear_arith)
            requires
                q0 < q,
                d > 0,
        ;
    } else if q0 > q {
        assert(d * q + d <= d * q0) by (nonlinear_arith)
            requires
                q0 > q,
                d > 0,
        ;
    }
}

/// Dividing a non-negative dividend below `d * hi` gives a quotient below `hi`.
pub proof fn lemma_div_range(n: int, d: int, hi: int)
    requires
        d > 0,
        0 <= n < d * hi,
    ensures
        0 <= n / d < hi,
{
    lemma_div_bounds(n, d);
    let q = n / d;
    if q >= hi {
        assert(d * q >= d * hi) by (nonlinear_arith)
            requires
                q >= hi,
                d > 0,
        ;
    }
    if q < 0 {
        assert(d * q <= -d) by (nonlinear_arith)
            requires
                q < 0,
                d > 0,
        ;
    }
}

} // verus!
