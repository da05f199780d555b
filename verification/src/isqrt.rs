//! Integer square root, the rounding used for all travel distances.

use vstd::prelude::*;

verus! {

/// `r` is the floor of the square root of `n`.
pub open spec fn is_sqrt(n: int, r: int) -> bool {
    &&& 0 <= r
    &&& r * r <= n
    &&& n < (r + 1) * (r + 1)
}

/// The floor of the square root of a nonnegative `n`.
pub open spec fn sqrt_floor(n: int) -> int {
    choose|r: int| is_sqrt(n, r)
}

pub proof fn lemma_sqrt_exists(n: int)
    requires
        0 <= n,
    ensures
        exists|r: int| is_sqrt(n, r),
    decreases n,
{
    if n == 0 {
        assert(is_sqrt(0, 0));
    } else {
        lemma_sqrt_exists(n - 1);
        let r = choose|r: int| #[trigger] is_sqrt(n - 1, r);
        if (r + 1) * (r + 1) <= n {
            assert(is_sqrt(n, r + 1)) by (nonlinear_arith)
                requires
                    is_sqrt(n - 1, r),
                    (r + 1) * (r + 1) <= n,
            ;
        } else {
            assert(is_sqrt(n, r));
        }
    }
}

pub proof fn lemma_sqrt_unique(n: int, r1: int, r2: int)
    requires
        is_sqrt(n, r1),
        is_sqrt(n, r2),
    ensures
        r1 == r2,
{
    assert(r1 == r2) by (nonlinear_arith)
        requires
            is_sqrt(n, r1),
            is_sqrt(n, r2),
    ;
}

/// `sqrt_floor` meets its own characterization.
pub proof fn lemma_sqrt_floor_is_sqrt(n: int)
    requires
        0 <= n,
    ensures
        is_sqrt(n, sqrt_floor(n)),
{
    lemma_sqrt_exists(n);
}

/// A square above `n` bounds its root: `n < b*b` forces `sqrt_floor(n) < b`.
pub proof fn lemma_sqrt_below(n: int, b: int)
    requires
        0 <= n,
        0 <= b,
        n < b * b,
    ensures
        sqrt_floor(n) < b,
{
    lemma_sqrt_floor_is_sqrt(n);
    let r = sqrt_floor(n);
    assert(r < b) by (nonlinear_arith)
        requires
            is_sqrt(n, r),
            0 <= b,
            n < b * b,
    ;
}

/// Binary search for the floor of the square root.
pub fn isqrt64(n: u64) -> (r: u64)
    ensures
        r as int == sqrt_floor(n as int),
        is_sqrt(n as int, r as int),
{
    let mut lo: u64 = 0;
    let mut hi: u64 = 4294967296;
    assert((n as int) < 4294967296int * 4294967296int);
    while hi - lo > 1
        invariant
            lo < hi,
            hi <= 4294967296,
            (lo as int) * (lo as int) <= n as int,
            (n as int) < (hi as int) * (hi as int),
        decreases hi - lo,
    {
        let mid = lo + (hi - lo) / 2;
        proof {
            assert((mid as int) * (mid as int) <= 4294967296int * 4294967296int)
                by (nonlinear_arith)
                requires
                    0 <= mid as int <= 4294967296int,
            ;
        }
        let sq: u128 = (mid as u128) * (mid as u128);
        if sq <= n as u128 {
            lo = mid;
        } else {
            hi = mid;
        }
    }
    proof {
        assert(is_sqrt(n as int, lo as int));
        lemma_sqrt_floor_is_sqrt(n as int);
        lemma_sqrt_unique(n as int, lo as int, sqrt_floor(n as int));
    }
    lo
}

} // verus!
