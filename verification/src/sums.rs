//! Finite sums over GF(2^128).

use crate::field::{fadd, fmul, fzero, lemma_add_assoc, lemma_add_swap, lemma_add_zero, lemma_mul_add_right, lemma_mul_zero, F128};
use vstd::prelude::*;

verus! {

/// `f(0) + f(1) + ... + f(n - 1)`.
pub open spec fn fsum(n: nat, f: spec_fn(int) -> F128) -> F128
    decreases n,
{
    if n == 0 {
        fzero()
    } else {
        fadd(fsum((n - 1) as nat, f), f(n - 1))
    }
}

/// `w` where the bit is set, zero elsewhere.
pub open spec fn sel(b: bool, w: F128) -> F128 {
    if b {
        w
    } else {
        fzero()
    }
}

/// Sums of equal terms are equal.
pub proof fn lemma_sum_ext(n: nat, f: spec_fn(int) -> F128, g: spec_fn(int) -> F128)
    requires
        forall|i: int| 0 <= i < n ==> #[trigger] f(i) == g(i),
    ensures
        fsum(n, f) == fsum(n, g),
    decreases n,
{
    if n > 0 {
        lemma_sum_ext((n - 1) as nat, f, g);
        assert(f(n - 1) == g(n - 1));
    }
}

/// A sum of zeros is zero.
pub proof fn lemma_sum_zero(n: nat, f: spec_fn(int) -> F128)
    requires
        forall|i: int| 0 <= i < n ==> #[trigger] f(i) == fzero(),
    ensures
        fsum(n, f) == fzero(),
    decreases n,
{
    if n > 0 {
        lemma_sum_zero((n - 1) as nat, f);
        assert(f(n - 1) == fzero());
        lemma_add_zero(fzero());
    }
}

/// The sum of termwise sums is the sum of the sums.
pub proof fn lemma_sum_add(n: nat, f: spec_fn(int) -> F128, g: spec_fn(int) -> F128)
    ensures
        fsum(n, |i: int| fadd(f(i), g(i))) == fadd(fsum(n, f), fsum(n, g)),
    decreases n,
{
    lemma_add_zero(fzero());
    if n > 0 {
        lemma_sum_add((n - 1) as nat, f, g);
        lemma_add_swap(fsum((n - 1) as nat, f), fsum((n - 1) as nat, g), f(n - 1), g(n - 1));
    }
}

/// A common factor moves out of a sum.
pub proof fn lemma_sum_scale(n: nat, c: F128, f: spec_fn(int) -> F128)
    ensures
        fsum(n, |i: int| fmul(c, f(i))) == fmul(c, fsum(n, f)),
    decreases n,
{
    if n == 0 {
        lemma_mul_zero(c);
    } else {
        lemma_sum_scale((n - 1) as nat, c, f);
        lemma_mul_add_right(c, fsum((n - 1) as nat, f), f(n - 1));
    }
}

/// A sum splits at any point.
pub proof fn lemma_sum_split(a: nat, b: nat, f: spec_fn(int) -> F128)
    ensures
        fsum(a + b, f) == fadd(fsum(a, f), fsum(b, |i: int| f(a + i))),
    decreases b,
{
    let g = |i: int| f(a + i);
    if b == 0 {
        lemma_add_zero(fsum(a, f));
    } else {
        lemma_sum_split(a, (b - 1) as nat, f);
        assert((a + b - 1) as nat == a + (b - 1) as nat);
        lemma_add_assoc(fsum(a, f), fsum((b - 1) as nat, g), g(b - 1));
    }
}

/// A sum over `a * b` indices is a sum over `a` rows of `b` entries.
pub proof fn lemma_sum_rows(a: nat, b: nat, f: spec_fn(int) -> F128)
    ensures
        fsum(a * b, f) == fsum(a, |i: int| fsum(b, |j: int| f(i * b + j))),
    decreases a,
{
    let rows = |i: int| fsum(b, |j: int| f(i * b + j));
    if a == 0 {
        assert(a * b == 0) by (nonlinear_arith)
            requires
                a == 0,
        ;
    } else {
        let c = (a - 1) as nat;
        lemma_sum_rows(c, b, f);
        assert(a * b == c * b + b) by (nonlinear_arith)
            requires
                a == c + 1,
        ;
        lemma_sum_split(c * b, b, f);
        lemma_sum_ext(b, |i: int| f(c * b + i), |j: int| f((a - 1) * b + j));
        assert(rows(a - 1) == fsum(b, |j: int| f((a - 1) * b + j)));
    }
}

/// Number of chunks of `c` that cover `n`.
pub open spec fn chunk_count(n: nat, c: nat) -> nat {
    (n + c - 1) as nat / c
}

/// Length of chunk `t`: `c`, or what is left of `n`.
pub open spec fn chunk_len(n: nat, c: nat, t: int) -> nat {
    if (t + 1) * c <= n {
        c
    } else {
        (n - t * c) as nat
    }
}

/// The last chunk ends exactly at `n`, and no chunk starts past it.
pub proof fn lemma_chunk_bounds(n: nat, c: nat, t: int)
    requires
        c > 0,
        0 <= t < chunk_count(n, c),
    ensures
        t * c < n,
        0 < chunk_len(n, c, t) <= c,
        t * c + chunk_len(n, c, t) <= n,
        t + 1 < chunk_count(n, c) ==> t * c + chunk_len(n, c, t) == (t + 1) * c,
        t + 1 == chunk_count(n, c) ==> t * c + chunk_len(n, c, t) == n,
{
    let k = chunk_count(n, c) as int;
    let (d, x) = (c as int, (n + c - 1) as int);
    vstd::arithmetic::div_mod::lemma_fundamental_div_mod(x, d);
    let r = x % d;
    assert((t + 1) * d == t * d + d) by (nonlinear_arith);
    assert(t * d <= (k - 1) * d && (k - 1) * d == d * k - d) by (nonlinear_arith)
        requires
            t <= k - 1,
            d > 0,
    ;
    if t + 1 < k {
        assert((t + 1) * d <= (k - 1) * d) by (nonlinear_arith)
            requires
                t + 1 <= k - 1,
                d > 0,
        ;
    }
}

proof fn lemma_sum_chunk_prefix(n: nat, c: nat, f: spec_fn(int) -> F128, m: nat)
    requires
        c > 0,
        m <= chunk_count(n, c),
    ensures
        fsum(m, |t: int| fsum(chunk_len(n, c, t), |j: int| f(t * c + j))) == fsum(
            if m == chunk_count(n, c) {
                n
            } else {
                m * c
            },
            f,
        ),
    decreases m,
{
    let g = |t: int| fsum(chunk_len(n, c, t), |j: int| f(t * c + j));
    if m == 0 {
        assert(0 * c == 0);
        if chunk_count(n, c) == 0 {
            let (d, x) = (c as int, (n + c - 1) as int);
            vstd::arithmetic::div_mod::lemma_fundamental_div_mod(x, d);
            assert(d * 0 == 0) by (nonlinear_arith);
            assert(n == 0);
        }
    } else {
        let t = m - 1;
        lemma_sum_chunk_prefix(n, c, f, t as nat);
        lemma_chunk_bounds(n, c, t);
        let base = (t * c) as nat;
        assert(t * c >= 0) by (nonlinear_arith)
            requires
                t >= 0,
        ;
        lemma_sum_split(base, chunk_len(n, c, t), f);
        lemma_sum_ext(chunk_len(n, c, t), |i: int| f(base + i), |j: int| f(t * c + j));
        assert(g(t) == fsum(chunk_len(n, c, t), |j: int| f(t * c + j)));
        assert((t as nat) * c == base);
    }
}

/// A sum over `n` indices is the sum over its chunks of `c`.
pub proof fn lemma_sum_chunks(n: nat, c: nat, f: spec_fn(int) -> F128)
    requires
        c > 0,
    ensures
        fsum(n, f) == fsum(
            chunk_count(n, c),
            |t: int| fsum(chunk_len(n, c, t), |j: int| f(t * c + j)),
        ),
{
    lemma_sum_chunk_prefix(n, c, f, chunk_count(n, c));
}

/// Handing each of `n` items to one of `m` owners and adding up what the owners
/// hold gives the sum over all items.
pub proof fn lemma_sum_owners(
    n: nat,
    m: nat,
    owner: spec_fn(int) -> int,
    part: spec_fn(int) -> F128,
)
    requires
        forall|t: int| 0 <= t < n ==> 0 <= #[trigger] owner(t) < m,
    ensures
        fsum(m, |v: int| fsum(n, |t: int| sel(owner(t) == v, part(t)))) == fsum(n, part),
{
    let f = |v: int, t: int| sel(owner(t) == v, part(t));
    let rows = |v: int| fsum(n, |t: int| sel(owner(t) == v, part(t)));
    assert forall|v: int| 0 <= v < m implies #[trigger] rows(v) == (|v: int|
        fsum(n, |t: int| f(v, t)))(v) by {
        lemma_sum_ext(n, |t: int| sel(owner(t) == v, part(t)), |t: int| f(v, t));
    }
    lemma_sum_ext(m, rows, |v: int| fsum(n, |t: int| f(v, t)));
    lemma_sum_swap(m, n, f);
    let cols = |t: int| fsum(m, |v: int| f(v, t));
    assert forall|t: int| 0 <= t < n implies #[trigger] cols(t) == part(t) by {
        let g = |v: int| f(v, t);
        let o = owner(t);
        lemma_sum_single(m, o, g);
    }
    lemma_sum_ext(n, cols, part);
}

/// The order of a double sum may be exchanged.
pub proof fn lemma_sum_swap(a: nat, b: nat, f: spec_fn(int, int) -> F128)
    ensures
        fsum(a, |i: int| fsum(b, |j: int| f(i, j))) == fsum(b, |j: int| fsum(a, |i: int| f(i, j))),
    decreases a,
{
    let lhs = |i: int| fsum(b, |j: int| f(i, j));
    let rhs = |j: int| fsum(a, |i: int| f(i, j));
    if a == 0 {
        lemma_sum_zero(b, rhs);
    } else {
        let c = (a - 1) as nat;
        lemma_sum_swap(c, b, f);
        let rest = |j: int| fsum(c, |i: int| f(i, j));
        let last = |j: int| f(a - 1, j);
        lemma_sum_add(b, rest, last);
        assert forall|j: int| 0 <= j < b implies #[trigger] rhs(j) == (|j: int|
            fadd(rest(j), last(j)))(j) by {}
        lemma_sum_ext(b, rhs, |j: int| fadd(rest(j), last(j)));
        lemma_sum_ext(b, last, |j: int| f(a - 1, j));
        assert(lhs(a - 1) == fsum(b, |j: int| f(a - 1, j)));
    }
}

/// A sum with a single nonzero term equals that term.
pub proof fn lemma_sum_single(n: nat, k: int, f: spec_fn(int) -> F128)
    requires
        0 <= k < n,
        forall|i: int| 0 <= i < n && i != k ==> #[trigger] f(i) == fzero(),
    ensures
        fsum(n, f) == f(k),
    decreases n,
{
    if k == n - 1 {
        lemma_sum_zero((n - 1) as nat, f);
        lemma_add_zero(f(k));
    } else {
        lemma_sum_single((n - 1) as nat, k, f);
        assert(f(n - 1) == fzero());
        lemma_add_zero(f(k));
    }
}

/// `n` zeros.
pub fn zeros(n: usize) -> (r: Vec<F128>)
    ensures
        r@.len() == n,
        forall|i: int| 0 <= i < n ==> #[trigger] r@[i] == fzero(),
{
    vec![F128::zero(); n]
}

} // verus!
