//! The floor square root as a mathematical relation, and the general laws
//! that follow from it.

use vstd::prelude::*;

verus! {

/// `r` is the floor square root of `n`: the unique non-negative integer with
/// `r * r <= n < (r + 1) * (r + 1)`.
pub open spec fn is_floor_sqrt(n: int, r: int) -> bool {
    0 <= r && r * r <= n && n < (r + 1) * (r + 1)
}

/// A number has at most one floor square root: any two values that both
/// satisfy `is_floor_sqrt` for the same `n` are equal.
pub proof fn lemma_floor_sqrt_unique(n: int, r1: int, r2: int)
    requires
        is_floor_sqrt(n, r1),
        is_floor_sqrt(n, r2),
    ensures
        r1 == r2,
{
    assert(r1 == r2) by (nonlinear_arith)
        requires
            0 <= r1,
            0 <= r2,
            r1 * r1 <= n,
            n < (r1 + 1) * (r1 + 1),
            r2 * r2 <= n,
            n < (r2 + 1) * (r2 + 1),
    ;
}

/// The floor square root is monotonic: if `a <= b`, the root of `a` is at
/// most the root of `b`.
pub proof fn lemma_floor_sqrt_monotonic(a: int, b: int, ra: int, rb: int)
    requires
        a <= b,
        is_floor_sqrt(a, ra),
        is_floor_sqrt(b, rb),
    ensures
        ra <= rb,
{
    assert(ra <= rb) by (nonlinear_arith)
        requires
            0 <= ra,
            0 <= rb,
            ra * ra <= a,
            a <= b,
            b < (rb + 1) * (rb + 1),
    ;
}

/// A perfect square is its own witness: the floor square root of `r * r` is
/// exactly `r`.
pub proof fn lemma_floor_sqrt_of_square(r: int)
    requires
        0 <= r,
    ensures
        is_floor_sqrt(r * r, r),
{
    assert(r * r <= r * r && r * r < (r + 1) * (r + 1)) by (nonlinear_arith)
        requires
            0 <= r,
    ;
}

/// The perfect-square identity: whatever satisfies `is_floor_sqrt` for
/// `r * r` is `r` itself, so the root extractors recover `r` exactly from
/// its square.
pub proof fn lemma_floor_sqrt_square_exact(r: int, s: int)
    requires
        0 <= r,
        is_floor_sqrt(r * r, s),
    ensures
        s == r,
{
    lemma_floor_sqrt_of_square(r);
    lemma_floor_sqrt_unique(r * r, s, r);
}

/// The floor square root never exceeds its argument.
pub proof fn lemma_floor_sqrt_le(n: int, r: int)
    requires
        is_floor_sqrt(n, r),
    ensures
        r <= n,
{
    assert(r <= n) by (nonlinear_arith)
        requires
            0 <= r,
            r * r <= n,
    ;
}

} // verus!
