//! Powers of two and small index arithmetic.

use vstd::arithmetic::power2::pow2;
use vstd::prelude::*;

verus! {

/// `2^e`.
pub fn pow2_usize(e: usize) -> (r: usize)
    requires
        e < usize::BITS,
    ensures
        r == pow2(e as nat),
        r > 0,
{
    proof {
        vstd::bits::lemma_usize_pow2_no_overflow(e as nat);
        vstd::bits::lemma_usize_shl_is_mul(1, e);
    }
    1usize << e
}

/// `2^a` and `2^b` multiply to `2^(a + b)`.
pub proof fn lemma_pow2_split(m: nat, k: nat)
    requires
        k <= m,
    ensures
        pow2(k) * pow2((m - k) as nat) == pow2(m),
        pow2((m - k) as nat) * pow2(k) == pow2(m),
        0 < pow2(k) <= pow2(m),
        0 < pow2((m - k) as nat) <= pow2(m),
{
    vstd::arithmetic::power2::lemma_pow2_adds(k, (m - k) as nat);
    assert(k + (m - k) as nat == m);
    vstd::arithmetic::power2::lemma_pow2_pos(k);
    vstd::arithmetic::power2::lemma_pow2_pos((m - k) as nat);
    let (a, b) = (pow2(k), pow2((m - k) as nat));
    assert(a * b == b * a && a <= a * b && b <= a * b) by (nonlinear_arith)
        requires
            a > 0,
            b > 0,
    ;
}

/// A power of two with exponent at least three is a multiple of eight.
pub proof fn lemma_pow2_by_8(e: nat)
    requires
        e >= 3,
    ensures
        pow2(e) == 8 * pow2((e - 3) as nat),
        pow2(e) / 8 == pow2((e - 3) as nat),
        pow2(e) % 8 == 0,
{
    lemma_pow2_split(e, 3);
    vstd::arithmetic::power2::lemma2_to64();
}

/// Row `a` of a table with rows of `n` entries ends before row `b` starts.
pub proof fn lemma_row_bound(a: int, j: int, b: int, n: int)
    requires
        0 <= a < b,
        0 <= j < n,
    ensures
        0 <= a * n,
        0 <= a * n + j < b * n,
        a * n + n <= b * n,
        (a + 1) * n == a * n + n,
{
    assert(0 <= a * n && a * n + n <= b * n && (a + 1) * n == a * n + n) by (nonlinear_arith)
        requires
            0 <= a < b,
            0 < n,
    ;
}

/// Quotient and remainder of `a * n + j` by `n`.
pub proof fn lemma_row_div(a: int, j: int, n: int)
    requires
        0 <= a,
        0 <= j < n,
    ensures
        (a * n + j) / n == a,
        (a * n + j) % n == j,
{
    vstd::arithmetic::div_mod::lemma_fundamental_div_mod_converse(a * n + j, n, a, j);
}

} // verus!
