//! Perfect-square lengths: deciding whether a flat buffer can hold a square
//! table, and finding its side.

use vstd::prelude::*;

verus! {

/// `n` is the side of a square table with `len` cells.
pub open spec fn is_side_of(n: int, len: int) -> bool {
    0 <= n && n * n == len
}

/// Some table has exactly `len` cells.
pub open spec fn is_perfect_square(len: int) -> bool {
    exists|n: int| is_side_of(n, len)
}

/// The side of the square table with `len` cells; arbitrary when `len` is not
/// a perfect square.
pub open spec fn side_of(len: int) -> int {
    choose|n: int| is_side_of(n, len)
}

/// A length has at most one side.
pub proof fn lemma_side_unique(n: int, m: int, len: int)
    requires
        is_side_of(n, len),
        is_side_of(m, len),
    ensures
        n == m,
{
    if n < m {
        assert(n * n < m * m) by (nonlinear_arith)
            requires
                0 <= n < m,
        ;
    } else if m < n {
        assert(m * m < n * n) by (nonlinear_arith)
            requires
                0 <= m < n,
        ;
    }
}

/// Whoever knows one side of `len` knows `side_of(len)`.
pub proof fn lemma_side_of_known(n: int, len: int)
    requires
        is_side_of(n, len),
    ensures
        is_perfect_square(len),
        side_of(len) == n,
{
    lemma_side_unique(n, side_of(len), len);
}

/// The largest `root` whose square does not exceed `len`, found by halving
/// the range of candidates: the arithmetic is on integers throughout, so the
/// root is exact for every length.
pub fn floor_sqrt(len: usize) -> (root: usize)
    ensures
        root * root <= len < (root + 1) * (root + 1),
{
    let mut lo: usize = 0;
    let mut hi: usize = len;
    assert(len < (len + 1) * (len + 1)) by (nonlinear_arith);
    while lo < hi
        invariant
            lo <= hi <= len,
            lo * lo <= len < (hi + 1) * (hi + 1),
        decreases hi - lo,
    {
        let mid: usize = hi - (hi - lo) / 2;
        if mid <= len / mid {
            assert(mid * mid <= len) by (nonlinear_arith)
                requires
                    0 < mid <= (len as int) / (mid as int),
            ;
            lo = mid;
        } else {
            assert(len < mid * mid) by (nonlinear_arith)
                requires
                    0 < mid,
                    mid > (len as int) / (mid as int),
            ;
            hi = mid - 1;
        }
    }
    lo
}

/// Returns the side `n` when `len` is `n * n`, and `None` when `len` is not a
/// perfect square. Length zero is the square of side zero.
///
/// The candidate side is the integer square root of `len`, and the answer
/// rests on the exact test `n * n == len`.
pub fn square_len(len: usize) -> (side: Option<usize>)
    ensures
        match side {
            Some(n) => is_side_of(n as int, len as int),
            None => !is_perfect_square(len as int),
        },
        is_perfect_square(len as int) ==> side == Some(side_of(len as int) as usize),
{
    if len == 0 {
        proof {
            lemma_side_of_known(0, 0);
        }
        return Some(0);
    }
    let n: usize = floor_sqrt(len);
    if n * n == len {
        proof {
            lemma_side_of_known(n as int, len as int);
        }
        Some(n)
    } else {
        proof {
            lemma_no_side_between(n as int, len as int);
        }
        None
    }
}

/// A length strictly between two neighbouring squares is no perfect square.
pub proof fn lemma_no_side_between(root: int, len: int)
    requires
        0 <= root,
        root * root < len < (root + 1) * (root + 1),
    ensures
        !is_perfect_square(len),
{
    assert forall|n: int| !is_side_of(n, len) by {
        if 0 <= n <= root {
            assert(n * n <= root * root) by (nonlinear_arith)
                requires
                    0 <= n <= root,
            ;
        } else if n > root {
            assert(n * n >= (root + 1) * (root + 1)) by (nonlinear_arith)
                requires
                    n >= root + 1 >= 0,
            ;
        }
    }
}

} // verus!
