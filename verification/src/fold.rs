//! The weighted fold that every kernel computes, and how it splits into eight-bit
//! stripes, chunks of stripes and workers.

use crate::field::F128;
use crate::par::{par_map, pool_threads};
use crate::sums::{chunk_count, chunk_len, fsum, lemma_chunk_bounds, lemma_sum_chunks, lemma_sum_ext, lemma_sum_owners, lemma_sum_rows, sel};
use vstd::prelude::*;

verus! {

/// The sum of the weights `w(o)` over the indices `o < n` whose bit is set.
pub open spec fn wfold(n: nat, bit: spec_fn(int) -> bool, w: spec_fn(int) -> F128) -> F128 {
    fsum(n, |o: int| sel(bit(o), w(o)))
}

/// The part of a fold that comes from the eight indices of stripe `s`.
pub open spec fn part8(bit: spec_fn(int) -> bool, w: spec_fn(int) -> F128, s: int) -> F128 {
    fsum(8, |r: int| sel(bit(8 * s + r), w(8 * s + r)))
}

/// The part that comes from chunk `t` of `c` stripes.
pub open spec fn chunk_part(
    bit: spec_fn(int) -> bool,
    w: spec_fn(int) -> F128,
    n_stripes: nat,
    c: nat,
    t: int,
) -> F128 {
    fsum(chunk_len(n_stripes, c, t), |j: int| part8(bit, w, t * c + j))
}

/// The worker that sweeps chunk `t`, when workers take `grab` chunks in turn.
pub open spec fn owner_of(t: int, grab: int, workers: int) -> int {
    (t / grab) % workers
}

/// The part that comes from the chunks of worker `v`.
pub open spec fn worker_part(
    bit: spec_fn(int) -> bool,
    w: spec_fn(int) -> F128,
    n_stripes: nat,
    c: nat,
    grab: int,
    workers: int,
    v: int,
) -> F128 {
    fsum(
        chunk_count(n_stripes, c),
        |t: int| sel(owner_of(t, grab, workers) == v, chunk_part(bit, w, n_stripes, c, t)),
    )
}

/// A fold is the sum of its stripes.
pub proof fn lemma_fold_stripes(n: nat, bit: spec_fn(int) -> bool, w: spec_fn(int) -> F128)
    ensures
        wfold(8 * n, bit, w) == fsum(n, |s: int| part8(bit, w, s)),
{
    let f = |o: int| sel(bit(o), w(o));
    lemma_sum_rows(n, 8, f);
    assert(n * 8 == 8 * n);
    let rows = |i: int| fsum(8, |j: int| f(i * 8 + j));
    assert forall|s: int| 0 <= s < n implies #[trigger] rows(s) == (|s: int| part8(bit, w, s))(
        s,
    ) by {
        lemma_sum_ext(8, |j: int| f(s * 8 + j), |r: int| sel(bit(8 * s + r), w(8 * s + r)));
    }
    lemma_sum_ext(n, rows, |s: int| part8(bit, w, s));
}

/// A fold is the sum of its chunks, whatever their size.
pub proof fn lemma_fold_chunks(
    n_stripes: nat,
    c: nat,
    bit: spec_fn(int) -> bool,
    w: spec_fn(int) -> F128,
)
    requires
        c > 0,
    ensures
        wfold(8 * n_stripes, bit, w) == fsum(
            chunk_count(n_stripes, c),
            |t: int| chunk_part(bit, w, n_stripes, c, t),
        ),
{
    let g = |s: int| part8(bit, w, s);
    lemma_fold_stripes(n_stripes, bit, w);
    lemma_sum_chunks(n_stripes, c, g);
    let h = |t: int| fsum(chunk_len(n_stripes, c, t), |j: int| g(t * c + j));
    assert forall|t: int| 0 <= t < chunk_count(n_stripes, c) implies #[trigger] h(t) == (|t: int|
        chunk_part(bit, w, n_stripes, c, t))(t) by {
        lemma_sum_ext(
            chunk_len(n_stripes, c, t),
            |j: int| g(t * c + j),
            |j: int| part8(bit, w, t * c + j),
        );
    }
    lemma_sum_ext(
        chunk_count(n_stripes, c),
        h,
        |t: int| chunk_part(bit, w, n_stripes, c, t),
    );
}

/// A fold is the sum of what its workers accumulate, however many workers there
/// are and however many chunks they take at a time.
pub proof fn lemma_fold_workers(
    n_stripes: nat,
    c: nat,
    grab: int,
    workers: nat,
    bit: spec_fn(int) -> bool,
    w: spec_fn(int) -> F128,
)
    requires
        c > 0,
        grab > 0,
        workers > 0,
    ensures
        fsum(workers, |v: int| worker_part(bit, w, n_stripes, c, grab, workers as int, v)) == wfold(
            8 * n_stripes,
            bit,
            w,
        ),
{
    let n = chunk_count(n_stripes, c);
    let owner = |t: int| owner_of(t, grab, workers as int);
    let part = |t: int| chunk_part(bit, w, n_stripes, c, t);
    assert forall|t: int| 0 <= t < n implies 0 <= #[trigger] owner(t) < workers by {
        vstd::arithmetic::div_mod::lemma_mod_bound(t / grab, workers as int);
    }
    lemma_sum_owners(n, workers, owner, part);
    let a = |v: int| fsum(n, |t: int| sel(owner(t) == v, part(t)));
    let b = |v: int| worker_part(bit, w, n_stripes, c, grab, workers as int, v);
    assert forall|v: int| 0 <= v < workers implies #[trigger] a(v) == b(v) by {
        lemma_sum_ext(
            n,
            |t: int| sel(owner(t) == v, part(t)),
            |t: int|
                sel(
                    owner_of(t, grab, workers as int) == v,
                    chunk_part(bit, w, n_stripes, c, t),
                ),
        );
    }
    lemma_sum_ext(workers, a, b);
    lemma_fold_chunks(n_stripes, c, bit, w);
}

/// Number of chunks of `c` that cover `n`.
pub fn div_up(n: usize, c: usize) -> (r: usize)
    requires
        c > 0,
    ensures
        r == chunk_count(n as nat, c as nat),
        r <= n,
        n > 0 ==> r > 0,
{
    let q: usize = n / c;
    let rest: usize = n % c;
    proof {
        let (x, d) = (n as int, c as int);
        vstd::arithmetic::div_mod::lemma_fundamental_div_mod(x, d);
        let up: int = if rest == 0 {
            0
        } else {
            1
        };
        let low: int = if rest == 0 {
            d - 1
        } else {
            rest - 1
        };
        assert(x + d - 1 == (q + up) * d + low) by (nonlinear_arith)
            requires
                x == d * q + rest,
                (rest == 0 && up == 0 && low == d - 1) || (up == 1 && low == rest - 1),
        ;
        vstd::arithmetic::div_mod::lemma_fundamental_div_mod_converse(
            x + d - 1,
            d,
            q + up,
            low,
        );
        assert(q <= d * q) by (nonlinear_arith)
            requires
                d >= 1,
                q >= 0,
        ;
        if rest == 0 && q == 0 {
            assert(d * q == 0) by (nonlinear_arith)
                requires
                    q == 0,
            ;
        }
    }
    if rest == 0 {
        q
    } else {
        q + 1
    }
}

/// The length of chunk `t` of `c` in `n`.
pub fn chunk_len_at(n: usize, c: usize, t: usize) -> (r: usize)
    requires
        c > 0,
        t < chunk_count(n as nat, c as nat),
    ensures
        r == chunk_len(n as nat, c as nat, t as int),
        0 < r <= c,
        t * c + r <= n,
{
    proof {
        lemma_chunk_bounds(n as nat, c as nat, t as int);
        assert((t + 1) * c == t * c + c) by (nonlinear_arith);
        assert(t * c >= 0) by (nonlinear_arith);
    }
    let rest: usize = n - t * c;
    if c <= rest {
        c
    } else {
        rest
    }
}

/// Entry `i` of a vector of `n` entries lies in chunk `i / c`, at place `i % c`.
pub proof fn lemma_chunk_place(n: nat, c: nat, i: int)
    requires
        c > 0,
        0 <= i < n,
    ensures
        0 <= i / (c as int) < chunk_count(n, c),
        0 <= i % (c as int) < chunk_len(n, c, i / (c as int)),
        i == (i / (c as int)) * c + i % (c as int),
{
    let (d, k) = (c as int, chunk_count(n, c) as int);
    let (q, r) = (i / d, i % d);
    vstd::arithmetic::div_mod::lemma_fundamental_div_mod(i, d);
    vstd::arithmetic::div_mod::lemma_div_pos_is_pos(i, d);
    let x = (n + c - 1) as int;
    vstd::arithmetic::div_mod::lemma_fundamental_div_mod(x, d);
    assert(q * d == d * q) by (nonlinear_arith);
    assert(q < k) by (nonlinear_arith)
        requires
            d * q + r == i,
            0 <= r,
            i <= x - d,
            x == d * k + x % d,
            x % d < d,
            d > 0,
    ;
    assert((q + 1) * d == q * d + d) by (nonlinear_arith);
}

/// Concatenates the chunks of a vector of `n` entries.
pub fn join_chunks<T: Copy>(parts: &Vec<Vec<T>>, n: usize, c: usize) -> (out: Vec<T>)
    requires
        c > 0,
        parts@.len() == chunk_count(n as nat, c as nat),
        forall|t: int|
            0 <= t < parts@.len() ==> #[trigger] parts@[t]@.len() == chunk_len(n as nat, c as nat, t),
    ensures
        out@.len() == n,
        forall|i: int|
            0 <= i < n ==> #[trigger] out@[i] == parts@[i / (c as int)]@[i % (c as int)],
{
    let mut out: Vec<T> = Vec::new();
    let mut q: usize = 0;
    let mut r: usize = 0;
    let mut i: usize = 0;
    while i < n
        invariant
            i <= n,
            c > 0,
            r < c,
            i == q * c + r,
            parts@.len() == chunk_count(n as nat, c as nat),
            forall|t: int|
                0 <= t < parts@.len() ==> #[trigger] parts@[t]@.len() == chunk_len(
                    n as nat,
                    c as nat,
                    t,
                ),
            out@.len() == i,
            forall|t: int|
                0 <= t < i ==> #[trigger] out@[t] == parts@[t / (c as int)]@[t % (c as int)],
        decreases n - i,
    {
        proof {
            lemma_chunk_place(n as nat, c as nat, i as int);
            crate::num::lemma_row_div(q as int, r as int, c as int);
        }
        out.push(parts[q][r]);
        i = i + 1;
        r = r + 1;
        if r == c {
            proof {
                assert((q + 1) * c == q * c + c) by (nonlinear_arith);
            }
            q = q + 1;
            r = 0;
        }
    }
    out
}

/// What the partial vectors add up to at column `i`.
pub open spec fn partial_sum(partials: Seq<Vec<F128>>, i: int) -> F128 {
    fsum(partials.len(), |v: int| partials[v]@[i])
}

/// The column sums over `[lo, lo + len)` of the partial vectors.
fn reduce_range(partials: &Vec<Vec<F128>>, k: usize, lo: usize, len: usize) -> (out: Vec<F128>)
    requires
        lo + len <= k,
        forall|v: int| 0 <= v < partials@.len() ==> #[trigger] partials@[v]@.len() == k,
    ensures
        out@.len() == len,
        forall|j: int| 0 <= j < len ==> #[trigger] out@[j] == partial_sum(partials@, lo + j),
{
    let mut out: Vec<F128> = Vec::new();
    let workers: usize = partials.len();
    let mut j: usize = 0;
    while j < len
        invariant
            j <= len,
            lo + len <= k,
            workers == partials@.len(),
            forall|v: int| 0 <= v < partials@.len() ==> #[trigger] partials@[v]@.len() == k,
            out@.len() == j,
            forall|i: int| 0 <= i < j ==> #[trigger] out@[i] == partial_sum(partials@, lo + i),
        decreases len - j,
    {
        let mut acc: F128 = F128::zero();
        let mut v: usize = 0;
        while v < workers
            invariant
                v <= workers,
                j < len,
                lo + len <= k,
                workers == partials@.len(),
                forall|u: int| 0 <= u < partials@.len() ==> #[trigger] partials@[u]@.len() == k,
                acc == fsum(v as nat, |u: int| partials@[u]@[lo + j]),
            decreases workers - v,
        {
            acc = acc + partials[v][lo + j];
            v = v + 1;
        }
        out.push(acc);
        j = j + 1;
    }
    out
}

/// The width of a pool, which is at least one thread.
pub open spec fn pool_width(threads: int) -> nat {
    if threads < 1 {
        1
    } else {
        threads as nat
    }
}

/// Items per task where each of `threads` threads gets about four tasks, but no task
/// gets fewer than `least`.
pub open spec fn items_per_task(n: nat, threads: int, least: nat) -> nat {
    let per = chunk_count(n, 4 * pool_width(threads));
    if per < least {
        least
    } else {
        per
    }
}

/// Items per task on a pool of `threads` threads.
pub fn task_len(n: usize, threads: usize, least: usize) -> (r: usize)
    ensures
        r == items_per_task(n as nat, threads as int, least as nat),
{
    let p: usize = if threads < 1 {
        1
    } else {
        threads
    };
    let per: usize = div_up(div_up(n, p), 4);
    proof {
        let (x, d) = (n as int, p as int);
        let up = (x + d - 1) / d;
        vstd::arithmetic::div_mod::lemma_hoist_over_denominator(x + d - 1, 3, d as nat);
        vstd::arithmetic::div_mod::lemma_div_denominator(x + d - 1 + 3 * d, d, 4);
        assert(d * 4 == 4 * d);
        assert(up + 3 == (x + 4 * d - 1) / d);
    }
    if per < least {
        least
    } else {
        per
    }
}

/// Adds up the workers' partial vectors, column range by column range.
pub fn reduce_partials(partials: &Vec<Vec<F128>>, k: usize) -> (out: Vec<F128>)
    requires
        forall|v: int| 0 <= v < partials@.len() ==> #[trigger] partials@[v]@.len() == k,
    ensures
        out@.len() == k,
        forall|i: int| 0 <= i < k ==> #[trigger] out@[i] == partial_sum(partials@, i),
{
    let cols: usize = task_len(k, pool_threads(), 64);
    let tasks: usize = div_up(k, cols);
    let f = |t: usize| -> (r: Vec<F128>)
        requires
            tasks > t,
            cols > 0,
            tasks == chunk_count(k as nat, cols as nat),
            forall|v: int| 0 <= v < partials@.len() ==> #[trigger] partials@[v]@.len() == k,
        ensures
            r@.len() == chunk_len(k as nat, cols as nat, t as int),
            forall|j: int|
                0 <= j < r@.len() ==> #[trigger] r@[j] == partial_sum(partials@, t * cols + j),
    {
        let len: usize = chunk_len_at(k, cols, t);
        reduce_range(partials, k, t * cols, len)
    };
    let parts: Vec<Vec<F128>> = par_map(tasks, f);
    let out: Vec<F128> = join_chunks(&parts, k, cols);
    proof {
        assert forall|i: int| 0 <= i < k implies #[trigger] out@[i] == partial_sum(
            partials@,
            i,
        ) by {
            let d = cols as int;
            lemma_chunk_place(k as nat, cols as nat, i);
            assert(parts@[i / d]@[i % d] == partial_sum(partials@, (i / d) * cols + i % d));
        }
    }
    out
}

} // verus!
