//! The column-major circuit: both matrices transposed once into flat column
//! lists, folded by gathering.

use crate::circuit::{comb_at, comb_table, LincheckCircuit, SUMCHECK_PAR_THRESHOLD};
use crate::field::{fadd, lemma_add_assoc, lemma_add_comm, lemma_add_zero, F128};
use crate::par::par_map;
use crate::r1cs::{hits, marginal, SparseBinaryMatrix};
use crate::sums::{fsum, lemma_sum_ext, lemma_sum_zero, sel};
use vstd::prelude::*;

verus! {

/// Row `r`, once for each of the first `j` entries of its list that names `c`.
pub open spec fn row_rep(row: Seq<usize>, c: int, r: int, j: nat) -> Seq<int>
    decreases j,
{
    if j == 0 {
        Seq::empty()
    } else if row[j - 1] == c {
        row_rep(row, c, r, (j - 1) as nat).push(r)
    } else {
        row_rep(row, c, r, (j - 1) as nat)
    }
}

/// The rows below `n` that list column `c`, in ascending order.
pub open spec fn col_rows(m: &SparseBinaryMatrix, c: int, n: nat) -> Seq<int>
    decreases n,
{
    if n == 0 {
        Seq::empty()
    } else {
        col_rows(m, c, (n - 1) as nat) + row_rep(m.row(n - 1), c, n - 1, m.row(n - 1).len())
    }
}

/// [`col_rows`] after the rows below `r` and the first `j` entries of row `r`.
pub open spec fn col_part(m: &SparseBinaryMatrix, c: int, r: nat, j: nat) -> Seq<int> {
    col_rows(m, c, r) + row_rep(m.row(r as int), c, r as int, j)
}

/// The whole list of column `c`.
pub open spec fn col_list(m: &SparseBinaryMatrix, c: int) -> Seq<int> {
    col_rows(m, c, m.num_rows as nat)
}

/// Where the list of column `c` starts when the lists are laid end to end.
pub open spec fn col_start(m: &SparseBinaryMatrix, c: nat) -> nat
    decreases c,
{
    if c == 0 {
        0
    } else {
        col_start(m, (c - 1) as nat) + col_list(m, c - 1).len()
    }
}

/// How often `r` occurs in the first `n` entries of a list.
pub open spec fn count_in(list: Seq<int>, r: int, n: nat) -> nat
    decreases n,
{
    if n == 0 {
        0
    } else {
        count_in(list, r, (n - 1) as nat) + if list[n - 1] == r {
            1nat
        } else {
            0nat
        }
    }
}

proof fn lemma_row_rep_mono(row: Seq<usize>, c: int, r: int, j: nat, k: nat)
    requires
        j <= k <= row.len(),
    ensures
        row_rep(row, c, r, j).len() <= row_rep(row, c, r, k).len(),
        forall|t: int|
            0 <= t < row_rep(row, c, r, j).len() ==> row_rep(row, c, r, j)[t] == row_rep(
                row,
                c,
                r,
                k,
            )[t],
    decreases k,
{
    if j < k {
        lemma_row_rep_mono(row, c, r, j, (k - 1) as nat);
    }
}

proof fn lemma_col_rows_mono(m: &SparseBinaryMatrix, c: int, a: nat, b: nat)
    requires
        a <= b,
    ensures
        col_rows(m, c, a).len() <= col_rows(m, c, b).len(),
        forall|t: int|
            0 <= t < col_rows(m, c, a).len() ==> col_rows(m, c, a)[t] == col_rows(m, c, b)[t],
    decreases b,
{
    if a < b {
        lemma_col_rows_mono(m, c, a, (b - 1) as nat);
    }
}

/// A partial column list is a prefix of the whole list.
proof fn lemma_col_part_prefix(m: &SparseBinaryMatrix, c: int, r: nat, j: nat)
    requires
        r < m.num_rows,
        j <= m.row(r as int).len(),
    ensures
        col_part(m, c, r, j).len() <= col_list(m, c).len(),
        forall|t: int|
            0 <= t < col_part(m, c, r, j).len() ==> col_part(m, c, r, j)[t] == col_list(m, c)[t],
{
    let row = m.row(r as int);
    lemma_row_rep_mono(row, c, r as int, j, row.len());
    lemma_col_rows_mono(m, c, r + 1, m.num_rows as nat);
    let (p, q) = (col_part(m, c, r, j), col_rows(m, c, r + 1));
    assert forall|t: int| 0 <= t < p.len() implies p[t] == q[t] by {
        if t >= col_rows(m, c, r).len() {
            let u = t - col_rows(m, c, r).len();
            assert(row_rep(row, c, r as int, j)[u] == row_rep(row, c, r as int, row.len())[u]);
        }
    }
}

proof fn lemma_col_start_mono(m: &SparseBinaryMatrix, a: nat, b: nat)
    requires
        a <= b,
    ensures
        col_start(m, a) <= col_start(m, b),
        a < b ==> col_start(m, a) + col_list(m, a as int).len() <= col_start(m, b),
    decreases b,
{
    if a < b {
        lemma_col_start_mono(m, a, (b - 1) as nat);
    }
}

proof fn lemma_count_append(x: Seq<int>, y: Seq<int>, r: int, n: nat)
    requires
        n <= y.len(),
    ensures
        count_in(x + y, r, x.len() + n) == count_in(x, r, x.len()) + count_in(y, r, n),
    decreases n,
{
    if n == 0 {
        lemma_count_prefix(x, x + y, r, x.len());
    } else {
        lemma_count_append(x, y, r, (n - 1) as nat);
        assert((x + y)[x.len() + n - 1] == y[n - 1]);
    }
}

proof fn lemma_count_prefix(x: Seq<int>, y: Seq<int>, r: int, n: nat)
    requires
        n <= x.len(),
        n <= y.len(),
        forall|t: int| 0 <= t < n ==> x[t] == y[t],
    ensures
        count_in(x, r, n) == count_in(y, r, n),
    decreases n,
{
    if n > 0 {
        lemma_count_prefix(x, y, r, (n - 1) as nat);
    }
}

proof fn lemma_count_row_rep(row: Seq<usize>, c: int, r: int, s: int, j: nat)
    ensures
        count_in(row_rep(row, c, r, j), s, row_rep(row, c, r, j).len()) == if s == r {
            hits(row, c, j)
        } else {
            0
        },
    decreases j,
{
    if j > 0 {
        let k = (j - 1) as nat;
        lemma_count_row_rep(row, c, r, s, k);
        if row[j - 1] == c {
            let x = row_rep(row, c, r, k);
            lemma_count_prefix(x, x.push(r), s, x.len());
        }
    }
}

/// A column list names row `r` as often as row `r` names the column.
proof fn lemma_count_col_rows(m: &SparseBinaryMatrix, c: int, r: int, n: nat)
    ensures
        count_in(col_rows(m, c, n), r, col_rows(m, c, n).len()) == if 0 <= r < n {
            hits(m.row(r), c, m.row(r).len())
        } else {
            0
        },
    decreases n,
{
    if n > 0 {
        let k = n - 1;
        lemma_count_col_rows(m, c, r, k as nat);
        let y = row_rep(m.row(k), c, k, m.row(k).len());
        lemma_count_append(col_rows(m, c, k as nat), y, r, y.len());
        lemma_count_row_rep(m.row(k), c, k, r, m.row(k).len());
    }
}

proof fn lemma_row_rep_is(row: Seq<usize>, c: int, r: int, j: nat)
    ensures
        forall|t: int|
            0 <= t < row_rep(row, c, r, j).len() ==> #[trigger] row_rep(row, c, r, j)[t] == r,
    decreases j,
{
    if j > 0 {
        let x = row_rep(row, c, r, (j - 1) as nat);
        lemma_row_rep_is(row, c, r, (j - 1) as nat);
        assert forall|t: int| 0 <= t < row_rep(row, c, r, j).len() implies #[trigger] row_rep(
            row,
            c,
            r,
            j,
        )[t] == r by {
            if t < x.len() {
                assert(row_rep(row, c, r, j)[t] == x[t]);
            }
        }
    }
}

proof fn lemma_col_rows_bound(m: &SparseBinaryMatrix, c: int, n: nat)
    ensures
        forall|t: int| 0 <= t < col_rows(m, c, n).len() ==> 0 <= #[trigger] col_rows(m, c, n)[t] < n,
    decreases n,
{
    if n > 0 {
        let k = n - 1;
        lemma_col_rows_bound(m, c, k as nat);
        lemma_row_rep_is(m.row(k), c, k, m.row(k).len());
        let (x, y) = (col_rows(m, c, k as nat), row_rep(m.row(k), c, k, m.row(k).len()));
        assert forall|t: int| 0 <= t < (x + y).len() implies 0 <= #[trigger] (x + y)[t] < n by {
            if t < x.len() {
                assert((x + y)[t] == x[t]);
            } else {
                assert((x + y)[t] == y[t - x.len()]);
            }
        }
    }
}

/// The flat column lists of a matrix.
pub open spec fn csc_of(m: &SparseBinaryMatrix, ptr: Seq<u32>, rows: Seq<u32>) -> bool {
    &&& ptr.len() == m.num_cols + 1
    &&& forall|c: int| 0 <= c <= m.num_cols ==> #[trigger] ptr[c] == col_start(m, c as nat)
    &&& rows.len() == col_start(m, m.num_cols as nat)
    &&& forall|c: int, t: int|
        0 <= c < m.num_cols && 0 <= t < col_list(m, c).len() ==> rows[col_start(m, c as nat) + t]
            == #[trigger] col_list(m, c)[t]
}

/// Counts the entries of every column, one place to the right.
fn count_columns(m: &SparseBinaryMatrix) -> (ptr: Vec<u32>)
    requires
        m.wf(),
        m.num_cols <= u32::MAX,
        m.num_cols < usize::MAX,
        m.num_rows <= u32::MAX,
        col_start(m, m.num_cols as nat) <= u32::MAX,
    ensures
        ptr@.len() == m.num_cols + 1,
        ptr@[0] == 0,
        forall|c: int| 0 <= c < m.num_cols ==> #[trigger] ptr@[c + 1] == col_list(m, c).len(),
{
    let mut ptr: Vec<u32> = vec![0u32; m.num_cols + 1];
    let n_rows: usize = m.num_rows;
    let mut r: usize = 0;
    while r < n_rows
        invariant
            r <= n_rows,
            m.wf(),
            n_rows == m.num_rows,
            m.num_cols <= u32::MAX,
        m.num_cols < usize::MAX,
            m.num_rows <= u32::MAX,
            col_start(m, m.num_cols as nat) <= u32::MAX,
            ptr@.len() == m.num_cols + 1,
            ptr@[0] == 0,
            forall|c: int|
                0 <= c < m.num_cols ==> #[trigger] ptr@[c + 1] == col_rows(m, c, r as nat).len(),
        decreases n_rows - r,
    {
        let row: &Vec<usize> = &m.rows[r];
        let len: usize = row.len();
        let mut j: usize = 0;
        while j < len
            invariant
                j <= len,
                r < n_rows,
                m.wf(),
                n_rows == m.num_rows,
                m.num_cols <= u32::MAX,
        m.num_cols < usize::MAX,
                col_start(m, m.num_cols as nat) <= u32::MAX,
                row@ == m.row(r as int),
                len == row@.len(),
                ptr@.len() == m.num_cols + 1,
                ptr@[0] == 0,
                forall|c: int|
                    0 <= c < m.num_cols ==> #[trigger] ptr@[c + 1] == col_part(
                        m,
                        c,
                        r as nat,
                        j as nat,
                    ).len(),
            decreases len - j,
        {
            let c: usize = row[j];
            proof {
                assert(m.rows@[r as int]@[j as int] < m.num_cols);
                lemma_col_part_prefix(m, c as int, r as nat, (j + 1) as nat);
                lemma_col_start_mono(m, c as nat, m.num_cols as nat);
                assert(ptr@[c as int + 1] == col_part(m, c as int, r as nat, j as nat).len());
            }
            let ghost before = ptr@;
            let v: u32 = ptr[c + 1] + 1;
            ptr.set(c + 1, v);
            proof {
                assert forall|d: int| 0 <= d < m.num_cols implies #[trigger] ptr@[d + 1]
                    == col_part(m, d, r as nat, (j + 1) as nat).len() by {
                    assert(before[d + 1] == col_part(m, d, r as nat, j as nat).len());
                }
            }
            j = j + 1;
        }
        r = r + 1;
    }
    ptr
}

/// Flattens a matrix into column lists: the rows with a one in column `c` are
/// `rows[ptr[c]..ptr[c + 1]]`.
pub fn csc_from_rows(m: &SparseBinaryMatrix) -> (r: (Vec<u32>, Vec<u32>))
    requires
        m.wf(),
        m.num_cols <= u32::MAX,
        m.num_cols < usize::MAX,
        m.num_rows <= u32::MAX,
        col_start(m, m.num_cols as nat) <= u32::MAX,
    ensures
        csc_of(m, r.0@, r.1@),
{
    let mut ptr: Vec<u32> = count_columns(m);
    let n_cols: usize = m.num_cols;
    let mut c: usize = 0;
    while c < n_cols
        invariant
            c <= n_cols,
            n_cols == m.num_cols,
            n_cols < usize::MAX,
            col_start(m, m.num_cols as nat) <= u32::MAX,
            ptr@.len() == n_cols + 1,
            forall|d: int| 0 <= d <= c ==> #[trigger] ptr@[d] == col_start(m, d as nat),
            forall|d: int| c <= d < n_cols ==> #[trigger] ptr@[d + 1] == col_list(m, d).len(),
        decreases n_cols - c,
    {
        proof {
            lemma_col_start_mono(m, c as nat, m.num_cols as nat);
            assert(ptr@[c as int + 1] == col_list(m, c as int).len());
            assert(ptr@[c as int] == col_start(m, c as nat));
        }
        let ghost before = ptr@;
        let v: u32 = ptr[c + 1] + ptr[c];
        ptr.set(c + 1, v);
        proof {
            assert forall|d: int| c + 1 <= d < n_cols implies #[trigger] ptr@[d + 1] == col_list(
                m,
                d,
            ).len() by {
                assert(before[d + 1] == col_list(m, d).len());
            }
        }
        c = c + 1;
    }
    let rows: Vec<u32> = fill_columns(m, &ptr);
    (ptr, rows)
}

/// Writes every row index to the next free place of its columns.
fn fill_columns(m: &SparseBinaryMatrix, ptr: &Vec<u32>) -> (rows: Vec<u32>)
    requires
        m.wf(),
        m.num_cols <= u32::MAX,
        m.num_cols < usize::MAX,
        m.num_rows <= u32::MAX,
        col_start(m, m.num_cols as nat) <= u32::MAX,
        ptr@.len() == m.num_cols + 1,
        forall|c: int| 0 <= c <= m.num_cols ==> #[trigger] ptr@[c] == col_start(m, c as nat),
    ensures
        csc_of(m, ptr@, rows@),
{
    let n_cols: usize = m.num_cols;
    let n_rows: usize = m.num_rows;
    let mut next: Vec<u32> = ptr.clone();
    assert(ptr@[n_cols as int] == col_start(m, n_cols as nat));
    let total: usize = ptr[n_cols] as usize;
    let mut rows: Vec<u32> = vec![0u32; total];
    let mut r: usize = 0;
    proof {
        assert forall|c: int| 0 <= c < n_cols implies #[trigger] col_part(m, c, 0, 0).len() == 0 by {}
    }
    while r < n_rows
        invariant
            r <= n_rows,
            m.wf(),
            n_rows == m.num_rows,
            n_cols == m.num_cols,
            n_rows <= u32::MAX,
            total == col_start(m, n_cols as nat),
            total <= u32::MAX,
            next@.len() == n_cols + 1,
            rows@.len() == total,
            forall|c: int|
                0 <= c < n_cols ==> #[trigger] next@[c] == col_start(m, c as nat) + col_part(
                    m,
                    c,
                    r as nat,
                    0,
                ).len(),
            forall|c: int, t: int|
                0 <= c < n_cols && 0 <= t < col_part(m, c, r as nat, 0).len() ==> rows@[col_start(
                    m,
                    c as nat,
                ) + t] == #[trigger] col_part(m, c, r as nat, 0)[t],
        decreases n_rows - r,
    {
        let row: &Vec<usize> = &m.rows[r];
        let len: usize = row.len();
        let mut j: usize = 0;
        while j < len
            invariant
                j <= len,
                r < n_rows,
                m.wf(),
                n_rows == m.num_rows,
                n_cols == m.num_cols,
                n_rows <= u32::MAX,
                total == col_start(m, n_cols as nat),
                total <= u32::MAX,
                row@ == m.row(r as int),
                len == row@.len(),
                next@.len() == n_cols + 1,
                rows@.len() == total,
                forall|c: int|
                    0 <= c < n_cols ==> #[trigger] next@[c] == col_start(m, c as nat) + col_part(
                        m,
                        c,
                        r as nat,
                        j as nat,
                    ).len(),
                forall|c: int, t: int|
                    0 <= c < n_cols && 0 <= t < col_part(m, c, r as nat, j as nat).len()
                        ==> rows@[col_start(m, c as nat) + t] == #[trigger] col_part(
                        m,
                        c,
                        r as nat,
                        j as nat,
                    )[t],
            decreases len - j,
        {
            let c: usize = row[j];
            proof {
                assert(m.rows@[r as int]@[j as int] < m.num_cols);
                lemma_col_part_prefix(m, c as int, r as nat, (j + 1) as nat);
                lemma_col_start_mono(m, c as nat, m.num_cols as nat);
                assert(next@[c as int] == col_start(m, c as nat) + col_part(
                    m,
                    c as int,
                    r as nat,
                    j as nat,
                ).len());
            }
            let ghost before = (next@, rows@);
            let at: usize = next[c] as usize;
            rows.set(at, r as u32);
            let v: u32 = next[c] + 1;
            next.set(c, v);
            proof {
                lemma_fill_step(m, r as nat, j as nat, c as int, before.1, rows@);
                assert forall|d: int| 0 <= d < n_cols implies #[trigger] next@[d] == col_start(
                    m,
                    d as nat,
                ) + col_part(m, d, r as nat, (j + 1) as nat).len() by {
                    assert(before.0[d] == col_start(m, d as nat) + col_part(
                        m,
                        d,
                        r as nat,
                        j as nat,
                    ).len());
                }
            }
            j = j + 1;
        }
        let ghost prev = r as nat;
        assert(j == len);
        r = r + 1;
        proof {
            assert forall|c: int| 0 <= c < n_cols implies #[trigger] next@[c] == col_start(
                m,
                c as nat,
            ) + col_part(m, c, r as nat, 0).len() by {
                lemma_col_part_next(m, c, prev);
            }
            assert forall|c: int, t: int|
                0 <= c < n_cols && 0 <= t < col_part(m, c, r as nat, 0).len() implies rows@[col_start(
                m,
                c as nat,
            ) + t] == #[trigger] col_part(m, c, r as nat, 0)[t] by {
                lemma_col_part_next(m, c, prev);
                let whole = col_part(m, c, prev, j as nat);
                assert(rows@[col_start(m, c as nat) + t] == whole[t]);
            }
        }
    }
    proof {
        assert forall|c: int| 0 <= c < n_cols implies #[trigger] col_list(m, c) == col_part(
            m,
            c,
            n_rows as nat,
            0,
        ) by {
            assert(col_part(m, c, n_rows as nat, 0) =~= col_list(m, c));
        }
    }
    rows
}

proof fn lemma_col_part_next(m: &SparseBinaryMatrix, c: int, r: nat)
    ensures
        col_part(m, c, r + 1, 0) == col_part(m, c, r, m.row(r as int).len()),
{
    assert(col_part(m, c, r + 1, 0) =~= col_rows(m, c, r + 1));
}

/// Writing row `r` at the end of the list of column `c` extends that list and
/// leaves the others.
proof fn lemma_fill_step(
    m: &SparseBinaryMatrix,
    r: nat,
    j: nat,
    c: int,
    before: Seq<u32>,
    after: Seq<u32>,
)
    requires
        r < m.num_rows,
        m.num_rows <= u32::MAX,
        j < m.row(r as int).len(),
        m.row(r as int)[j as int] == c,
        0 <= c < m.num_cols,
        before.len() == col_start(m, m.num_cols as nat),
        after == before.update(
            (col_start(m, c as nat) + col_part(m, c, r, j).len()) as int,
            r as u32,
        ),
        forall|d: int, t: int|
            0 <= d < m.num_cols && 0 <= t < col_part(m, d, r, j).len() ==> before[col_start(
                m,
                d as nat,
            ) + t] == #[trigger] col_part(m, d, r, j)[t],
    ensures
        forall|d: int, t: int|
            0 <= d < m.num_cols && 0 <= t < col_part(m, d, r, j + 1).len() ==> after[col_start(
                m,
                d as nat,
            ) + t] == #[trigger] col_part(m, d, r, j + 1)[t],
{
    let at = (col_start(m, c as nat) + col_part(m, c, r, j).len()) as int;
    lemma_col_part_prefix(m, c, r, j + 1);
    lemma_col_start_mono(m, c as nat, m.num_cols as nat);
    assert forall|d: int, t: int|
        0 <= d < m.num_cols && 0 <= t < col_part(m, d, r, j + 1).len() implies after[col_start(
        m,
        d as nat,
    ) + t] == #[trigger] col_part(m, d, r, j + 1)[t] by {
        lemma_col_part_prefix(m, d, r, j + 1);
        lemma_col_start_mono(m, d as nat, m.num_cols as nat);
        if d == c {
            let old_part = col_part(m, c, r, j);
            if t < old_part.len() {
                assert(col_part(m, c, r, j + 1)[t] == old_part[t]);
            } else {
                assert(col_part(m, c, r, j + 1)[t] == r);
            }
        } else {
            assert(col_part(m, d, r, j + 1) == col_part(m, d, r, j));
            if d < c {
                lemma_col_start_mono(m, d as nat, c as nat);
            } else {
                lemma_col_start_mono(m, c as nat, d as nat);
            }
            assert(col_start(m, d as nat) + t != at);
            assert(before[col_start(m, d as nat) + t] == col_part(m, d, r, j)[t]);
        }
    }
}

/// The list of column `c` in flat arrays.
pub open spec fn flat_list(ptr: Seq<u32>, rows: spec_fn(int) -> int, c: int) -> Seq<int> {
    Seq::new((ptr[c + 1] - ptr[c]) as nat, |t: int| rows(ptr[c] + t))
}

/// The entries that the column lists describe.
pub open spec fn flat_entry(ptr: Seq<u32>, rows: spec_fn(int) -> int) -> spec_fn(int, int) -> bool {
    |r: int, c: int|
        count_in(flat_list(ptr, rows, c), r, flat_list(ptr, rows, c).len()) % 2 == 1
}

/// The sum of the weights of the first `n` entries of a list.
pub open spec fn list_sum(list: Seq<int>, eq: Seq<F128>, n: nat) -> F128 {
    fsum(n, |t: int| eq[list[t]])
}

proof fn lemma_sum_bump(n: nat, f: spec_fn(int) -> F128, g: spec_fn(int) -> F128, k: int, e: F128)
    requires
        0 <= k < n,
        g(k) == fadd(f(k), e),
        forall|i: int| 0 <= i < n && i != k ==> #[trigger] g(i) == f(i),
    ensures
        fsum(n, g) == fadd(fsum(n, f), e),
    decreases n,
{
    let m = (n - 1) as nat;
    if k == n - 1 {
        lemma_sum_ext(m, g, f);
        lemma_add_assoc(fsum(m, f), f(k), e);
    } else {
        lemma_sum_bump(m, f, g, k, e);
        assert(g(n - 1) == f(n - 1));
        lemma_add_assoc(fsum(m, f), e, f(n - 1));
        lemma_add_comm(e, f(n - 1));
        lemma_add_assoc(fsum(m, f), f(n - 1), e);
    }
}

/// Gathering a column list sums the weights of the rows it names an odd number
/// of times.
proof fn lemma_gather_is_marginal(list: Seq<int>, eq: Seq<F128>, n_rows: nat, n: nat)
    requires
        n <= list.len(),
        forall|t: int| 0 <= t < list.len() ==> 0 <= #[trigger] list[t] < n_rows,
    ensures
        list_sum(list, eq, n) == fsum(
            n_rows,
            |r: int| sel(count_in(list, r, n) % 2 == 1, eq[r]),
        ),
    decreases n,
{
    let g = |r: int| sel(count_in(list, r, n) % 2 == 1, eq[r]);
    if n == 0 {
        lemma_sum_zero(n_rows, g);
    } else {
        let m = (n - 1) as nat;
        lemma_gather_is_marginal(list, eq, n_rows, m);
        let f = |r: int| sel(count_in(list, r, m) % 2 == 1, eq[r]);
        let k = list[n - 1];
        lemma_add_zero(eq[k]);
        lemma_sum_bump(n_rows, f, g, k, eq[k]);
    }
}

/// The column-major circuit.
#[derive(Clone)]
pub struct CscCircuit {
    n_cols: usize,
    n_rows: usize,
    a_col_ptr: Vec<u32>,
    a_rows: Vec<u32>,
    b_col_ptr: Vec<u32>,
    b_rows: Vec<u32>,
    a_rows16: Vec<u16>,
    b_rows16: Vec<u16>,
    narrow: bool,
    const_pin: Option<usize>,
}

/// Row indices, from the narrow or from the wide array.
pub open spec fn row_at(narrow: bool, wide: Seq<u32>, thin: Seq<u16>) -> spec_fn(int) -> int {
    |t: int|
        if narrow {
            thin[t] as int
        } else {
            wide[t] as int
        }
}

spec fn flat_ok(
    n_cols: int,
    n_rows: int,
    ptr: Seq<u32>,
    narrow: bool,
    wide: Seq<u32>,
    thin: Seq<u16>,
) -> bool {
    let len = if narrow {
        thin.len()
    } else {
        wide.len()
    };
    &&& ptr.len() == n_cols + 1
    &&& forall|c: int|
        0 <= c < n_cols ==> #[trigger] ptr[c] <= ptr[c + 1] && ptr[c + 1] <= len
    &&& forall|t: int| 0 <= t < len ==> 0 <= #[trigger] row_at(narrow, wide, thin)(t) < n_rows
}

/// The sum of `eq` over the rows of one column.
fn gather_col(
    ptr: &Vec<u32>,
    narrow: bool,
    wide: &Vec<u32>,
    thin: &Vec<u16>,
    n_rows: usize,
    n_cols: usize,
    eq: &[F128],
    c: usize,
) -> (s: F128)
    requires
        flat_ok(n_cols as int, n_rows as int, ptr@, narrow, wide@, thin@),
        n_rows <= eq@.len(),
        c < n_cols,
    ensures
        s == marginal(
            flat_entry(ptr@, row_at(narrow, wide@, thin@)),
            n_rows as nat,
            eq@,
            c as int,
        ),
{
    let ghost rows = row_at(narrow, wide@, thin@);
    let ghost list = flat_list(ptr@, rows, c as int);
    assert(ptr@[c as int] <= ptr@[c as int + 1]);
    let lo: usize = ptr[c] as usize;
    let hi: usize = ptr[c + 1] as usize;
    let mut s: F128 = F128::zero();
    let mut t: usize = lo;
    while t < hi
        invariant
            lo <= t <= hi,
            c < n_cols,
            flat_ok(n_cols as int, n_rows as int, ptr@, narrow, wide@, thin@),
            n_rows <= eq@.len(),
            rows == row_at(narrow, wide@, thin@),
            list == flat_list(ptr@, rows, c as int),
            lo == ptr@[c as int],
            hi == ptr@[c as int + 1],
            hi <= (if narrow {
                thin@.len()
            } else {
                wide@.len()
            }),
            s == list_sum(list, eq@, (t - lo) as nat),
        decreases hi - t,
    {
        assert(0 <= rows(t as int) < n_rows);
        let r: usize = if narrow {
            thin[t] as usize
        } else {
            wide[t] as usize
        };
        assert(list[t - lo] == r);
        s = s + eq[r];
        t = t + 1;
    }
    proof {
        assert forall|u: int| 0 <= u < list.len() implies 0 <= #[trigger] list[u] < n_rows by {
            assert(0 <= rows(ptr@[c as int] + u) < n_rows);
        }
        lemma_gather_is_marginal(list, eq@, n_rows as nat, list.len());
        let entry = flat_entry(ptr@, rows);
        lemma_sum_ext(
            n_rows as nat,
            |r: int| sel(count_in(list, r, list.len()) % 2 == 1, eq@[r]),
            |r: int| sel(entry(r, c as int), eq@[r]),
        );
    }
    s
}

/// The narrow copy of row indices.
fn narrow_rows(rows: &Vec<u32>) -> (out: Vec<u16>)
    requires
        forall|t: int| 0 <= t < rows@.len() ==> #[trigger] rows@[t] < 65536,
    ensures
        out@.len() == rows@.len(),
        forall|t: int| 0 <= t < rows@.len() ==> #[trigger] out@[t] == rows@[t],
{
    let mut out: Vec<u16> = Vec::new();
    let n: usize = rows.len();
    let mut t: usize = 0;
    while t < n
        invariant
            t <= n,
            n == rows@.len(),
            out@.len() == t,
            forall|u: int| 0 <= u < rows@.len() ==> #[trigger] rows@[u] < 65536,
            forall|u: int| 0 <= u < t ==> #[trigger] out@[u] == rows@[u],
        decreases n - t,
    {
        assert(rows@[t as int] < 65536);
        out.push(rows[t] as u16);
        t = t + 1;
    }
    out
}

/// The flat arrays of a matrix describe its entries.
proof fn lemma_csc_entries(
    m: &SparseBinaryMatrix,
    ptr: Seq<u32>,
    rows: Seq<u32>,
    at: spec_fn(int) -> int,
)
    requires
        csc_of(m, ptr, rows),
        m.num_cols <= u32::MAX,
        m.num_cols < usize::MAX,
        forall|t: int| 0 <= t < rows.len() ==> #[trigger] at(t) == rows[t],
    ensures
        forall|c: int|
            0 <= c < m.num_cols ==> #[trigger] ptr[c] <= ptr[c + 1] && ptr[c + 1] <= rows.len(),
        forall|t: int| 0 <= t < rows.len() ==> 0 <= #[trigger] rows[t] < m.num_rows,
        forall|r: int, c: int|
            0 <= r < m.num_rows && 0 <= c < m.num_cols ==> #[trigger] flat_entry(ptr, at)(r, c)
                == m.entry()(r, c),
{
    assert forall|c: int| 0 <= c < m.num_cols implies #[trigger] ptr[c] <= ptr[c + 1] && ptr[c + 1]
        <= rows.len() && flat_list(ptr, at, c) == col_list(m, c) by {
        assert(ptr[c + 1] == col_start(m, (c + 1) as nat));
        lemma_col_start_mono(m, (c + 1) as nat, m.num_cols as nat);
        assert forall|t: int| 0 <= t < col_list(m, c).len() implies #[trigger] flat_list(
            ptr,
            at,
            c,
        )[t] == col_list(m, c)[t] by {
            assert(at(ptr[c] + t) == rows[ptr[c] + t]);
        }
        assert(flat_list(ptr, at, c) =~= col_list(m, c));
    }
    assert forall|t: int| 0 <= t < rows.len() implies 0 <= #[trigger] rows[t] < m.num_rows by {
        let c = lemma_column_of(m, t, m.num_cols as nat);
        lemma_col_rows_bound(m, c, m.num_rows as nat);
        let u = t - col_start(m, c as nat);
        assert(rows[col_start(m, c as nat) + u] == col_list(m, c)[u]);
    }
    assert forall|r: int, c: int|
        0 <= r < m.num_rows && 0 <= c < m.num_cols implies #[trigger] flat_entry(ptr, at)(r, c)
        == m.entry()(r, c) by {
        assert(ptr[c] <= ptr[c + 1]);
        lemma_count_col_rows(m, c, r, m.num_rows as nat);
    }
}

/// The column whose list holds flat position `t`.
proof fn lemma_column_of(m: &SparseBinaryMatrix, t: int, n: nat) -> (c: int)
    requires
        0 <= t < col_start(m, n),
    ensures
        0 <= c < n,
        col_start(m, c as nat) <= t < col_start(m, c as nat) + col_list(m, c).len(),
    decreases n,
{
    if t >= col_start(m, (n - 1) as nat) {
        n - 1
    } else {
        lemma_column_of(m, t, (n - 1) as nat)
    }
}

/// The number of ones that a matrix lists fits the index type of the flat arrays.
pub open spec fn csc_fits(m: &SparseBinaryMatrix) -> bool {
    &&& m.wf()
    &&& m.num_cols <= u32::MAX
    &&& m.num_cols < usize::MAX
    &&& m.num_rows <= u32::MAX
    &&& col_start(m, m.num_cols as nat) <= u32::MAX
}

impl CscCircuit {
    /// The circuit of a pair of matrices, with narrow row indices where they fit.
    pub fn from_matrices(a_0: &SparseBinaryMatrix, b_0: &SparseBinaryMatrix) -> (r: Self)
        requires
            csc_fits(a_0),
            csc_fits(b_0),
            a_0.num_rows == b_0.num_rows,
            a_0.num_cols == b_0.num_cols,
        ensures
            r.wf(),
            r.describes(a_0, b_0),
            r.pin() is None,
            r.is_narrow() == (a_0.num_rows <= 65536),
            r.held() == (col_start(a_0, a_0.num_cols as nat), col_start(b_0, b_0.num_cols as nat)),
    {
        Self::from_matrices_narrow(a_0, b_0, true)
    }

    /// The circuit of a pair of matrices, with narrow row indices only where
    /// they fit and are wanted.
    pub fn from_matrices_narrow(
        a_0: &SparseBinaryMatrix,
        b_0: &SparseBinaryMatrix,
        want_narrow: bool,
    ) -> (r: Self)
        requires
            csc_fits(a_0),
            csc_fits(b_0),
            a_0.num_rows == b_0.num_rows,
            a_0.num_cols == b_0.num_cols,
        ensures
            r.wf(),
            r.describes(a_0, b_0),
            r.pin() is None,
            r.is_narrow() == (want_narrow && a_0.num_rows <= 65536),
            r.held() == (col_start(a_0, a_0.num_cols as nat), col_start(b_0, b_0.num_cols as nat)),
    {
        let (a_col_ptr, a_wide) = csc_from_rows(a_0);
        let (b_col_ptr, b_wide) = csc_from_rows(b_0);
        proof {
            lemma_csc_entries(a_0, a_col_ptr@, a_wide@, |t: int| a_wide@[t] as int);
            lemma_csc_entries(b_0, b_col_ptr@, b_wide@, |t: int| b_wide@[t] as int);
        }
        let narrow: bool = a_0.num_rows <= 65536 && want_narrow;
        let (a_rows, b_rows, a_rows16, b_rows16): (Vec<u32>, Vec<u32>, Vec<u16>, Vec<u16>) = if narrow {
            let a16: Vec<u16> = narrow_rows(&a_wide);
            let b16: Vec<u16> = narrow_rows(&b_wide);
            (Vec::new(), Vec::new(), a16, b16)
        } else {
            (a_wide, b_wide, Vec::new(), Vec::new())
        };
        let ghost a_at = row_at(narrow, a_rows@, a_rows16@);
        let ghost b_at = row_at(narrow, b_rows@, b_rows16@);
        proof {
            lemma_csc_entries(a_0, a_col_ptr@, a_wide@, a_at);
            lemma_csc_entries(b_0, b_col_ptr@, b_wide@, b_at);
            assert forall|t: int| 0 <= t < a_wide@.len() implies 0 <= #[trigger] a_at(t)
                < a_0.num_rows by {
                assert(0 <= a_wide@[t] < a_0.num_rows);
            }
            assert forall|t: int| 0 <= t < b_wide@.len() implies 0 <= #[trigger] b_at(t)
                < b_0.num_rows by {
                assert(0 <= b_wide@[t] < b_0.num_rows);
            }
        }
        CscCircuit {
            n_cols: a_0.num_cols,
            n_rows: a_0.num_rows,
            a_col_ptr,
            a_rows,
            b_col_ptr,
            b_rows,
            a_rows16,
            b_rows16,
            narrow,
            const_pin: None,
        }
    }

    /// The circuit with its constant wire set.
    pub fn with_const_pin(self, const_pin: Option<usize>) -> (r: Self)
        requires
            self.wf(),
        ensures
            r.wf(),
            r.pin() == const_pin,
            r.cols() == self.cols(),
            r.row_count() == self.row_count(),
            r.a_entry() == self.a_entry(),
            r.b_entry() == self.b_entry(),
            r.is_narrow() == self.is_narrow(),
            r.held() == self.held(),
    {
        let mut r = self;
        r.const_pin = const_pin;
        r
    }

    /// Whether the row indices are held in 16 bits.
    pub closed spec fn is_narrow(&self) -> bool {
        self.narrow
    }

    /// Same sizes and same entries as the pair of matrices.
    pub open spec fn describes(&self, a_0: &SparseBinaryMatrix, b_0: &SparseBinaryMatrix) -> bool {
        &&& self.cols() == a_0.num_cols
        &&& self.row_count() == a_0.num_rows
        &&& forall|r: int, c: int|
            0 <= r < a_0.num_rows && 0 <= c < a_0.num_cols ==> #[trigger] self.a_entry()(r, c)
                == a_0.entry()(r, c)
        &&& forall|r: int, c: int|
            0 <= r < a_0.num_rows && 0 <= c < a_0.num_cols ==> #[trigger] self.b_entry()(r, c)
                == b_0.entry()(r, c)
    }

    /// Whether the row indices are held in 16 bits.
    pub fn narrow(&self) -> (r: bool)
        ensures
            r == self.is_narrow(),
    {
        self.narrow
    }

    /// Number of row indices held for the first and for the second matrix.
    pub fn nnz(&self) -> (r: (usize, usize))
        ensures
            (r.0 as nat, r.1 as nat) == self.held(),
    {
        if self.narrow {
            (self.a_rows16.len(), self.b_rows16.len())
        } else {
            (self.a_rows.len(), self.b_rows.len())
        }
    }

    /// How many row indices the circuit holds for the first and for the second matrix.
    pub closed spec fn held(&self) -> (nat, nat) {
        if self.narrow {
            (self.a_rows16@.len(), self.b_rows16@.len())
        } else {
            (self.a_rows@.len(), self.b_rows@.len())
        }
    }
}

/// Whether both halves of the circuit are well formed.
spec fn circuit_ok(k: &CscCircuit) -> bool {
    &&& flat_ok(
        k.n_cols as int,
        k.n_rows as int,
        k.a_col_ptr@,
        k.narrow,
        k.a_rows@,
        k.a_rows16@,
    )
    &&& flat_ok(
        k.n_cols as int,
        k.n_rows as int,
        k.b_col_ptr@,
        k.narrow,
        k.b_rows@,
        k.b_rows16@,
    )
}

/// The entries of the first matrix.
spec fn a_bits(k: &CscCircuit) -> spec_fn(int, int) -> bool {
    flat_entry(k.a_col_ptr@, row_at(k.narrow, k.a_rows@, k.a_rows16@))
}

/// The entries of the second matrix.
spec fn b_bits(k: &CscCircuit) -> spec_fn(int, int) -> bool {
    flat_entry(k.b_col_ptr@, row_at(k.narrow, k.b_rows@, k.b_rows16@))
}

/// One entry of the batched marginal.
fn one_col(k: &CscCircuit, alpha: F128, eq: &[F128], c: usize) -> (v: F128)
    requires
        circuit_ok(k),
        k.n_rows <= eq@.len(),
        c < k.n_cols,
    ensures
        v == comb_at(a_bits(k), b_bits(k), k.n_rows as nat, alpha, eq@, c as int),
{
    let sa: F128 = gather_col(
        &k.a_col_ptr,
        k.narrow,
        &k.a_rows,
        &k.a_rows16,
        k.n_rows,
        k.n_cols,
        eq,
        c,
    );
    let sb: F128 = gather_col(
        &k.b_col_ptr,
        k.narrow,
        &k.b_rows,
        &k.b_rows16,
        k.n_rows,
        k.n_cols,
        eq,
        c,
    );
    alpha * sa + sb
}

impl LincheckCircuit for CscCircuit {
    closed spec fn wf(&self) -> bool {
        circuit_ok(self)
    }

    closed spec fn cols(&self) -> nat {
        self.n_cols as nat
    }

    closed spec fn row_count(&self) -> nat {
        self.n_rows as nat
    }

    closed spec fn a_entry(&self) -> spec_fn(int, int) -> bool {
        a_bits(self)
    }

    closed spec fn b_entry(&self) -> spec_fn(int, int) -> bool {
        b_bits(self)
    }

    closed spec fn pin(&self) -> Option<usize> {
        self.const_pin
    }

    fn n_cols(&self) -> (r: usize) {
        self.n_cols
    }

    fn fold_alpha_batched(&self, alpha: F128, eq_inner: &[F128]) -> (out: Vec<F128>) {
        let n: usize = self.n_cols;
        let ghost want = comb_table(
            self.a_entry(),
            self.b_entry(),
            self.row_count(),
            self.cols(),
            alpha,
            eq_inner@,
        );
        if n < SUMCHECK_PAR_THRESHOLD {
            let mut out: Vec<F128> = Vec::new();
            let mut c: usize = 0;
            while c < n
                invariant
                    c <= n,
                    n == self.cols(),
                    self.wf(),
                    self.row_count() <= eq_inner@.len(),
                    want == comb_table(
                        self.a_entry(),
                        self.b_entry(),
                        self.row_count(),
                        self.cols(),
                        alpha,
                        eq_inner@,
                    ),
                    out@.len() == c,
                    forall|d: int| 0 <= d < c ==> #[trigger] out@[d] == want[d],
                decreases n - c,
            {
                out.push(one_col(self, alpha, eq_inner, c));
                c = c + 1;
            }
            assert(out@ =~= want);
            return out;
        }
        let f = |c: usize| -> (v: F128)
            requires
                n > c,
                n == self.cols(),
                self.wf(),
                self.row_count() <= eq_inner@.len(),
            ensures
                v == comb_at(
                    self.a_entry(),
                    self.b_entry(),
                    self.row_count(),
                    alpha,
                    eq_inner@,
                    c as int,
                ),
        { one_col(self, alpha, eq_inner, c) };
        let out: Vec<F128> = par_map(n, f);
        assert(out@ =~= want);
        out
    }

    fn const_pin_col(&self) -> (r: Option<usize>) {
        self.const_pin
    }
}

/// Circuits that describe the same matrices fold alike, whatever the width of
/// their row indices.
pub proof fn lemma_same_entries_fold_alike(
    a: spec_fn(int, int) -> bool,
    b: spec_fn(int, int) -> bool,
    a2: spec_fn(int, int) -> bool,
    b2: spec_fn(int, int) -> bool,
    n_rows: nat,
    n_cols: nat,
    alpha: F128,
    eq: Seq<F128>,
)
    requires
        forall|r: int, c: int|
            0 <= r < n_rows && 0 <= c < n_cols ==> #[trigger] a(r, c) == a2(r, c),
        forall|r: int, c: int|
            0 <= r < n_rows && 0 <= c < n_cols ==> #[trigger] b(r, c) == b2(r, c),
    ensures
        comb_table(a, b, n_rows, n_cols, alpha, eq) == comb_table(
            a2,
            b2,
            n_rows,
            n_cols,
            alpha,
            eq,
        ),
{
    let (x, y) = (
        comb_table(a, b, n_rows, n_cols, alpha, eq),
        comb_table(a2, b2, n_rows, n_cols, alpha, eq),
    );
    assert forall|c: int| 0 <= c < n_cols implies #[trigger] x[c] == y[c] by {
        lemma_sum_ext(n_rows, |r: int| sel(a(r, c), eq[r]), |r: int| sel(a2(r, c), eq[r]));
        lemma_sum_ext(n_rows, |r: int| sel(b(r, c), eq[r]), |r: int| sel(b2(r, c), eq[r]));
    }
    assert(x =~= y);
}

} // verus!
