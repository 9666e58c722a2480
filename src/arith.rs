//! Rounded integer division and the facts about division the proofs share.
use vstd::prelude::*;

verus! {

/// `p / q` rounded to the nearest integer, halves away from zero
/// (for `p >= 0` and `q > 0`).
pub open spec fn round_div(p: int, q: int) -> int {
    (2 * p + q) / (2 * q)
}

/// A quotient is at most `c` when the dividend is below `b * (c + 1)`.
pub proof fn lemma_div_at_most(a: int, b: int, c: int)
    requires
        0 <= a,
        0 < b,
        0 <= c,
        a < b * (c + 1),
    ensures
        0 <= a / b <= c,
{
    vstd::arithmetic::div_mod::lemma_fundamental_div_mod(a, b);
    vstd::arithmetic::div_mod::lemma_div_pos_is_pos(a, b);
    let q = a / b;
    assert(b * q <= a) by {
        vstd::arithmetic::div_mod::lemma_mod_pos_bound(a, b);
    }
    assert(q < c + 1) by (nonlinear_arith)
        requires
            b * q < b * (c + 1),
            0 < b,
    ;
}

} // verus!
