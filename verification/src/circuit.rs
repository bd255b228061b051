//! The per-block linear structure that lincheck consumes, by rows and by columns.

use crate::field::{fadd, fmul, lemma_add_assoc, lemma_add_zero, lemma_mul_zero, F128};
use crate::fold::{chunk_len_at, div_up, items_per_task, reduce_partials, task_len};
use crate::par::{par_map, pool_threads};
use crate::r1cs::{marginal, scatter_row, SparseBinaryMatrix};
use crate::sums::{chunk_count, chunk_len, fsum, lemma_sum_add, lemma_sum_chunks, lemma_sum_ext, lemma_sum_scale, sel, zeros};
use vstd::prelude::*;

verus! {

/// Row count from which a row fold is split over the pool.
pub const SPARSE_ROW_FOLD_PAR_THRESHOLD: usize = 4096;

/// Table length from which sumcheck kernels are split over the pool.
pub const SUMCHECK_PAR_THRESHOLD: usize = 4096;

/// The per-block linear structure of a lincheck instance.
pub trait LincheckCircuit: Sync {
    /// Whether the value is well formed.
    spec fn wf(&self) -> bool;

    /// Number of columns.
    spec fn cols(&self) -> nat;

    /// Number of rows.
    spec fn row_count(&self) -> nat;

    /// The entries of the first matrix.
    spec fn a_entry(&self) -> spec_fn(int, int) -> bool;

    /// The entries of the second matrix.
    spec fn b_entry(&self) -> spec_fn(int, int) -> bool;

    /// The column of the constant-one wire, if there is one.
    spec fn pin(&self) -> Option<usize>;

    /// Number of columns of the per-block matrices.
    fn n_cols(&self) -> (r: usize)
        requires
            self.wf(),
        ensures
            r == self.cols(),
    ;

    /// The batched column marginal: `alpha` times the marginal of the first
    /// matrix plus that of the second.
    fn fold_alpha_batched(&self, alpha: F128, eq_inner: &[F128]) -> (out: Vec<F128>)
        requires
            self.wf(),
            eq_inner@.len() == self.cols(),
            self.row_count() <= self.cols(),
        ensures
            out@ == comb_table(
                self.a_entry(),
                self.b_entry(),
                self.row_count(),
                self.cols(),
                alpha,
                eq_inner@,
            ),
    ;

    /// The column of the constant-one wire to pin, if there is one.
    fn const_pin_col(&self) -> (r: Option<usize>)
        requires
            self.wf(),
        ensures
            r == self.pin(),
    ;
}

/// Entry `c` of the batched marginal.
pub open spec fn comb_at(
    a: spec_fn(int, int) -> bool,
    b: spec_fn(int, int) -> bool,
    n_rows: nat,
    alpha: F128,
    eq: Seq<F128>,
    c: int,
) -> F128 {
    fadd(fmul(alpha, marginal(a, n_rows, eq, c)), marginal(b, n_rows, eq, c))
}

/// The batched marginal of every column.
pub open spec fn comb_table(
    a: spec_fn(int, int) -> bool,
    b: spec_fn(int, int) -> bool,
    n_rows: nat,
    n_cols: nat,
    alpha: F128,
    eq: Seq<F128>,
) -> Seq<F128> {
    Seq::new(n_cols, |c: int| comb_at(a, b, n_rows, alpha, eq, c))
}

/// The marginal over the rows `[lo, lo + n)`.
pub open spec fn marginal_range(
    entry: spec_fn(int, int) -> bool,
    eq: Seq<F128>,
    c: int,
    lo: int,
    n: nat,
) -> F128 {
    fsum(n, |r: int| sel(entry(lo + r, c), eq[lo + r]))
}

/// Scatters the rows `[lo, lo + n)`, row `r` with weight `scale * eq[r]` where a
/// scale is given and `eq[r]` otherwise.
fn scatter_rows(
    m: &SparseBinaryMatrix,
    scale: Option<F128>,
    eq: &[F128],
    lo: usize,
    n: usize,
    acc: &mut Vec<F128>,
)
    requires
        m.wf(),
        lo + n <= m.num_rows,
        m.num_rows <= eq@.len(),
        old(acc)@.len() == m.num_cols,
    ensures
        final(acc)@.len() == old(acc)@.len(),
        forall|c: int|
            0 <= c < old(acc)@.len() ==> #[trigger] final(acc)@[c] == fadd(
                old(acc)@[c],
                scaled(scale, marginal_range(m.entry(), eq@, c, lo as int, n as nat)),
            ),
{
    let ghost before = acc@;
    let ghost entry = m.entry();
    let mut i: usize = 0;
    proof {
        assert forall|c: int| 0 <= c < before.len() implies #[trigger] acc@[c] == fadd(
            before[c],
            scaled(scale, marginal_range(entry, eq@, c, lo as int, 0)),
        ) by {
            lemma_add_zero(before[c]);
            if scale is Some {
                lemma_mul_zero(scale->0);
            }
        }
    }
    while i < n
        invariant
            i <= n,
            m.wf(),
            entry == m.entry(),
            lo + n <= m.num_rows,
            m.num_rows <= eq@.len(),
            before.len() == m.num_cols,
            acc@.len() == before.len(),
            forall|c: int|
                0 <= c < before.len() ==> #[trigger] acc@[c] == fadd(
                    before[c],
                    scaled(scale, marginal_range(entry, eq@, c, lo as int, i as nat)),
                ),
        decreases n - i,
    {
        let r: usize = lo + i;
        let e: F128 = match scale {
            Some(a) => a * eq[r],
            None => eq[r],
        };
        let ghost mid = acc@;
        let row: &Vec<usize> = &m.rows[r];
        proof {
            assert forall|j: int| 0 <= j < row@.len() implies #[trigger] row@[j] < acc@.len() by {
                assert(m.rows@[r as int]@[j] < m.num_cols);
            }
        }
        scatter_row(row, e, acc);
        proof {
            assert forall|c: int| 0 <= c < before.len() implies #[trigger] acc@[c] == fadd(
                before[c],
                scaled(scale, marginal_range(entry, eq@, c, lo as int, (i + 1) as nat)),
            ) by {
                let s = marginal_range(entry, eq@, c, lo as int, i as nat);
                let x = sel(entry(lo + i as int, c), eq@[lo + i as int]);
                assert(acc@[c] == fadd(mid[c], sel(entry(lo + i as int, c), e)));
                if scale is Some {
                    crate::field::lemma_mul_add_right(scale->0, s, x);
                    lemma_mul_zero(scale->0);
                }
                lemma_add_assoc(before[c], scaled(scale, s), scaled(scale, x));
            }
        }
        i = i + 1;
    }
}

/// `x`, multiplied by the scale where one is given.
pub open spec fn scaled(scale: Option<F128>, x: F128) -> F128 {
    match scale {
        Some(a) => fmul(a, x),
        None => x,
    }
}

/// A marginal is the sum of the marginals of its chunks of rows.
proof fn lemma_marginal_chunks(
    entry: spec_fn(int, int) -> bool,
    n: nat,
    eq: Seq<F128>,
    c: int,
    size: nat,
)
    requires
        size > 0,
    ensures
        marginal(entry, n, eq, c) == fsum(
            chunk_count(n, size),
            |t: int| marginal_range(entry, eq, c, t * size, chunk_len(n, size, t)),
        ),
{
    let f = |r: int| sel(entry(r, c), eq[r]);
    lemma_sum_chunks(n, size, f);
    let g = |t: int| fsum(chunk_len(n, size, t), |j: int| f(t * size + j));
    let h = |t: int| marginal_range(entry, eq, c, t * size, chunk_len(n, size, t));
    assert forall|t: int| 0 <= t < chunk_count(n, size) implies #[trigger] g(t) == h(t) by {
        lemma_sum_ext(
            chunk_len(n, size, t),
            |j: int| f(t * size + j),
            |r: int| sel(entry(t * size + r, c), eq[t * size + r]),
        );
    }
    lemma_sum_ext(chunk_count(n, size), g, h);
}

proof fn lemma_marginal_range_full(
    entry: spec_fn(int, int) -> bool,
    n: nat,
    eq: Seq<F128>,
    c: int,
)
    ensures
        marginal_range(entry, eq, c, 0, n) == marginal(entry, n, eq, c),
{
    lemma_sum_ext(n, |r: int| sel(entry(0 + r, c), eq[0 + r]), |r: int| sel(entry(r, c), eq[r]));
}

/// The row chunk size for a pool of `threads`: about four chunks per thread, and
/// at least 256 rows each.
pub fn chunk_rows_for(n_rows: usize, threads: usize) -> (r: usize)
    ensures
        r == items_per_task(n_rows as nat, threads as int, 256),
{
    task_len(n_rows, threads, 256)
}

/// Folds the rows of a matrix against an eq table: entry `c` is the sum of
/// `eq_table[r]` over the rows with a one in column `c`.
pub fn sparse_row_fold(matrix: &SparseBinaryMatrix, eq_table: &[F128]) -> (out: Vec<F128>)
    requires
        matrix.wf(),
        eq_table@.len() == matrix.num_rows,
    ensures
        out@.len() == matrix.num_cols,
        forall|c: int|
            0 <= c < out@.len() ==> #[trigger] out@[c] == marginal(
                matrix.entry(),
                matrix.num_rows as nat,
                eq_table@,
                c,
            ),
{
    let n_rows: usize = matrix.num_rows;
    let n_cols: usize = matrix.num_cols;
    if matrix.rows.len() < SPARSE_ROW_FOLD_PAR_THRESHOLD {
        let mut out: Vec<F128> = zeros(n_cols);
        scatter_rows(matrix, None, eq_table, 0, n_rows, &mut out);
        proof {
            assert forall|c: int| 0 <= c < out@.len() implies #[trigger] out@[c] == marginal(
                matrix.entry(),
                n_rows as nat,
                eq_table@,
                c,
            ) by {
                lemma_marginal_range_full(matrix.entry(), n_rows as nat, eq_table@, c);
                lemma_add_zero(marginal(matrix.entry(), n_rows as nat, eq_table@, c));
            }
        }
        return out;
    }
    let size: usize = chunk_rows_for(n_rows, pool_threads());
    let n_chunks: usize = div_up(n_rows, size);
    let f = |t: usize| -> (r: Vec<F128>)
        requires
            n_chunks > t,
            size > 0,
            matrix.wf(),
            n_cols == matrix.num_cols,
            n_rows == matrix.num_rows,
            n_chunks == chunk_count(n_rows as nat, size as nat),
            eq_table@.len() == matrix.num_rows,
        ensures
            r@.len() == n_cols,
            forall|c: int|
                0 <= c < n_cols ==> #[trigger] r@[c] == marginal_range(
                    matrix.entry(),
                    eq_table@,
                    c,
                    t * size,
                    chunk_len(n_rows as nat, size as nat, t as int),
                ),
    {
        let len: usize = chunk_len_at(n_rows, size, t);
        let mut acc: Vec<F128> = zeros(n_cols);
        scatter_rows(matrix, None, eq_table, t * size, len, &mut acc);
        proof {
            assert forall|c: int| 0 <= c < n_cols implies #[trigger] acc@[c] == marginal_range(
                matrix.entry(),
                eq_table@,
                c,
                t * size,
                chunk_len(n_rows as nat, size as nat, t as int),
            ) by {
                lemma_add_zero(
                    marginal_range(matrix.entry(), eq_table@, c, (t * size) as int, len as nat),
                );
            }
        }
        acc
    };
    let partials: Vec<Vec<F128>> = par_map(n_chunks, f);
    let out: Vec<F128> = reduce_partials(&partials, n_cols);
    proof {
        assert forall|c: int| 0 <= c < out@.len() implies #[trigger] out@[c] == marginal(
            matrix.entry(),
            n_rows as nat,
            eq_table@,
            c,
        ) by {
            lemma_marginal_chunks(matrix.entry(), n_rows as nat, eq_table@, c, size as nat);
            lemma_sum_ext(
                n_chunks as nat,
                |v: int| partials@[v]@[c],
                |t: int|
                    marginal_range(
                        matrix.entry(),
                        eq_table@,
                        c,
                        t * size,
                        chunk_len(n_rows as nat, size as nat, t),
                    ),
            );
        }
    }
    out
}

/// The batched marginal by scattering rows: `alpha` times the fold of the first
/// matrix plus the fold of the second, in one pass.
pub fn sparse_row_fold_alpha_batched(
    alpha: F128,
    a_0: &SparseBinaryMatrix,
    b_0: &SparseBinaryMatrix,
    eq_table: &[F128],
) -> (out: Vec<F128>)
    requires
        a_0.wf(),
        b_0.wf(),
        a_0.num_rows == b_0.num_rows,
        a_0.num_cols == b_0.num_cols,
        a_0.num_rows <= eq_table@.len(),
    ensures
        out@ == comb_table(
            a_0.entry(),
            b_0.entry(),
            a_0.num_rows as nat,
            a_0.num_cols as nat,
            alpha,
            eq_table@,
        ),
{
    let n_rows: usize = a_0.num_rows;
    let n_cols: usize = a_0.num_cols;
    let ghost (ea, eb) = (a_0.entry(), b_0.entry());
    if n_rows < SPARSE_ROW_FOLD_PAR_THRESHOLD / 2 {
        let mut out: Vec<F128> = zeros(n_cols);
        scatter_rows(a_0, Some(alpha), eq_table, 0, n_rows, &mut out);
        scatter_rows(b_0, None, eq_table, 0, n_rows, &mut out);
        proof {
            assert forall|c: int| 0 <= c < n_cols implies #[trigger] out@[c] == comb_at(
                ea,
                eb,
                n_rows as nat,
                alpha,
                eq_table@,
                c,
            ) by {
                lemma_marginal_range_full(ea, n_rows as nat, eq_table@, c);
                lemma_marginal_range_full(eb, n_rows as nat, eq_table@, c);
                lemma_add_zero(fmul(alpha, marginal(ea, n_rows as nat, eq_table@, c)));
            }
            assert(out@ =~= comb_table(ea, eb, n_rows as nat, n_cols as nat, alpha, eq_table@));
        }
        return out;
    }
    let size: usize = chunk_rows_for(n_rows, pool_threads());
    let n_chunks: usize = div_up(n_rows, size);
    let f = |t: usize| -> (r: Vec<F128>)
        requires
            n_chunks > t,
            size > 0,
            a_0.wf(),
            b_0.wf(),
            n_cols == a_0.num_cols,
            n_cols == b_0.num_cols,
            n_rows == a_0.num_rows,
            n_rows == b_0.num_rows,
            n_chunks == chunk_count(n_rows as nat, size as nat),
            a_0.num_rows <= eq_table@.len(),
        ensures
            r@.len() == n_cols,
            forall|c: int|
                0 <= c < n_cols ==> #[trigger] r@[c] == fadd(
                    fmul(
                        alpha,
                        marginal_range(
                            a_0.entry(),
                            eq_table@,
                            c,
                            t * size,
                            chunk_len(n_rows as nat, size as nat, t as int),
                        ),
                    ),
                    marginal_range(
                        b_0.entry(),
                        eq_table@,
                        c,
                        t * size,
                        chunk_len(n_rows as nat, size as nat, t as int),
                    ),
                ),
    {
        let len: usize = chunk_len_at(n_rows, size, t);
        let mut acc: Vec<F128> = zeros(n_cols);
        scatter_rows(a_0, Some(alpha), eq_table, t * size, len, &mut acc);
        scatter_rows(b_0, None, eq_table, t * size, len, &mut acc);
        proof {
            assert forall|c: int| 0 <= c < n_cols implies #[trigger] acc@[c] == fadd(
                fmul(
                    alpha,
                    marginal_range(
                        a_0.entry(),
                        eq_table@,
                        c,
                        t * size,
                        chunk_len(n_rows as nat, size as nat, t as int),
                    ),
                ),
                marginal_range(
                    b_0.entry(),
                    eq_table@,
                    c,
                    t * size,
                    chunk_len(n_rows as nat, size as nat, t as int),
                ),
            ) by {
                lemma_add_zero(
                    fmul(
                        alpha,
                        marginal_range(
                            a_0.entry(),
                            eq_table@,
                            c,
                            (t * size) as int,
                            len as nat,
                        ),
                    ),
                );
            }
        }
        acc
    };
    let partials: Vec<Vec<F128>> = par_map(n_chunks, f);
    let out: Vec<F128> = reduce_partials(&partials, n_cols);
    proof {
        assert forall|c: int| 0 <= c < n_cols implies #[trigger] out@[c] == comb_at(
            ea,
            eb,
            n_rows as nat,
            alpha,
            eq_table@,
            c,
        ) by {
            let (n, s, eq) = (n_rows as nat, size as nat, eq_table@);
            let pa = |t: int| marginal_range(ea, eq, c, t * s, chunk_len(n, s, t));
            let pb = |t: int| marginal_range(eb, eq, c, t * s, chunk_len(n, s, t));
            lemma_marginal_chunks(ea, n, eq, c, s);
            lemma_marginal_chunks(eb, n, eq, c, s);
            lemma_sum_scale(n_chunks as nat, alpha, pa);
            let sa = |t: int| fmul(alpha, pa(t));
            lemma_sum_add(n_chunks as nat, sa, pb);
            lemma_sum_ext(
                n_chunks as nat,
                |v: int| partials@[v]@[c],
                |t: int| fadd(sa(t), pb(t)),
            );
        }
        assert(out@ =~= comb_table(ea, eb, n_rows as nat, n_cols as nat, alpha, eq_table@));
    }
    out
}

/// A circuit over a pair of sparse matrices, folded by scattering rows.
pub struct SparseMatrixCircuit<'a> {
    pub a_0: &'a SparseBinaryMatrix,
    pub b_0: &'a SparseBinaryMatrix,
    pub const_pin: Option<usize>,
}

impl<'a> SparseMatrixCircuit<'a> {
    /// A circuit without a constant wire.
    pub fn new(a_0: &'a SparseBinaryMatrix, b_0: &'a SparseBinaryMatrix) -> (r: Self)
        requires
            a_0.wf(),
            b_0.wf(),
            a_0.num_rows == b_0.num_rows,
            a_0.num_cols == b_0.num_cols,
        ensures
            r.wf(),
            r.a_0 == a_0,
            r.b_0 == b_0,
            r.const_pin is None,
    {
        SparseMatrixCircuit { a_0, b_0, const_pin: None }
    }

    /// The circuit with its constant wire set.
    pub fn with_const_pin(self, const_pin: Option<usize>) -> (r: Self)
        ensures
            r.a_0 == self.a_0,
            r.b_0 == self.b_0,
            r.const_pin == const_pin,
    {
        SparseMatrixCircuit { a_0: self.a_0, b_0: self.b_0, const_pin }
    }
}

impl<'a> LincheckCircuit for SparseMatrixCircuit<'a> {
    open spec fn wf(&self) -> bool {
        &&& self.a_0.wf()
        &&& self.b_0.wf()
        &&& self.a_0.num_rows == self.b_0.num_rows
        &&& self.a_0.num_cols == self.b_0.num_cols
    }

    open spec fn cols(&self) -> nat {
        self.a_0.num_cols as nat
    }

    open spec fn row_count(&self) -> nat {
        self.a_0.num_rows as nat
    }

    open spec fn a_entry(&self) -> spec_fn(int, int) -> bool {
        self.a_0.entry()
    }

    open spec fn b_entry(&self) -> spec_fn(int, int) -> bool {
        self.b_0.entry()
    }

    open spec fn pin(&self) -> Option<usize> {
        self.const_pin
    }

    fn n_cols(&self) -> (r: usize) {
        self.a_0.num_cols
    }

    fn fold_alpha_batched(&self, alpha: F128, eq_inner: &[F128]) -> (out: Vec<F128>) {
        sparse_row_fold_alpha_batched(alpha, self.a_0, self.b_0, eq_inner)
    }

    fn const_pin_col(&self) -> (r: Option<usize>) {
        self.const_pin
    }
}

} // verus!
