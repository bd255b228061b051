//! Sparse binary matrices by rows.

use crate::field::{fadd, lemma_add_assoc, lemma_add_zero, F128};
use crate::sums::{fsum, sel};
use vstd::prelude::*;

verus! {

/// How often column `c` occurs among the first `n` entries of a row list.
pub open spec fn hits(row: Seq<usize>, c: int, n: nat) -> nat
    decreases n,
{
    if n == 0 {
        0
    } else {
        hits(row, c, (n - 1) as nat) + if row[n - 1] == c {
            1nat
        } else {
            0nat
        }
    }
}

/// A sparse binary matrix: row `r` lists the columns that hold a one. A column
/// that a row lists twice holds a zero, since entries live in GF(2).
#[derive(Clone, Debug)]
pub struct SparseBinaryMatrix {
    pub num_rows: usize,
    pub num_cols: usize,
    pub rows: Vec<Vec<usize>>,
}

impl SparseBinaryMatrix {
    /// One list per row, every entry a column.
    pub open spec fn wf(&self) -> bool {
        &&& self.rows@.len() == self.num_rows
        &&& forall|r: int, j: int|
            0 <= r < self.rows@.len() && 0 <= j < self.rows@[r]@.len() ==> #[trigger] self.rows@[r]@[j]
                < self.num_cols
    }

    /// The columns listed in row `r`.
    pub open spec fn row(&self, r: int) -> Seq<usize> {
        self.rows@[r]@
    }

    /// The matrix entries.
    pub open spec fn entry(&self) -> spec_fn(int, int) -> bool {
        |r: int, c: int| hits(self.row(r), c, self.row(r).len()) % 2 == 1
    }
}

/// What a weight `e` contributes to column `c` after `n` entries of a row: `e`
/// where the column was listed an odd number of times.
pub proof fn lemma_hits_parity(row: Seq<usize>, c: int, e: F128, n: nat)
    requires
        n > 0,
    ensures
        sel(hits(row, c, n) % 2 == 1, e) == if row[n - 1] == c {
            fadd(sel(hits(row, c, (n - 1) as nat) % 2 == 1, e), e)
        } else {
            sel(hits(row, c, (n - 1) as nat) % 2 == 1, e)
        },
{
    lemma_add_zero(e);
}

/// Adds `e` to every column that a row lists.
pub fn scatter_row(row: &Vec<usize>, e: F128, acc: &mut Vec<F128>)
    requires
        forall|j: int| 0 <= j < row@.len() ==> #[trigger] row@[j] < old(acc)@.len(),
    ensures
        final(acc)@.len() == old(acc)@.len(),
        forall|c: int|
            0 <= c < old(acc)@.len() ==> #[trigger] final(acc)@[c] == fadd(
                old(acc)@[c],
                sel(hits(row@, c, row@.len()) % 2 == 1, e),
            ),
{
    let ghost before = acc@;
    let n: usize = row.len();
    let mut j: usize = 0;
    proof {
        assert forall|c: int| 0 <= c < before.len() implies #[trigger] acc@[c] == fadd(
            before[c],
            sel(hits(row@, c, 0) % 2 == 1, e),
        ) by {
            lemma_add_zero(before[c]);
        }
    }
    while j < n
        invariant
            j <= n,
            n == row@.len(),
            acc@.len() == before.len(),
            forall|t: int| 0 <= t < row@.len() ==> #[trigger] row@[t] < before.len(),
            forall|c: int|
                0 <= c < before.len() ==> #[trigger] acc@[c] == fadd(
                    before[c],
                    sel(hits(row@, c, j as nat) % 2 == 1, e),
                ),
        decreases n - j,
    {
        let col: usize = row[j];
        let ghost mid = acc@;
        let v: F128 = acc[col] + e;
        acc.set(col, v);
        proof {
            assert forall|c: int| 0 <= c < before.len() implies #[trigger] acc@[c] == fadd(
                before[c],
                sel(hits(row@, c, (j + 1) as nat) % 2 == 1, e),
            ) by {
                lemma_hits_parity(row@, c, e, (j + 1) as nat);
                lemma_add_assoc(before[c], sel(hits(row@, c, j as nat) % 2 == 1, e), e);
            }
        }
        j = j + 1;
    }
}

/// The eq-weighted column marginal: the sum of `eq[r]` over the rows with a one
/// in column `c`.
pub open spec fn marginal(
    entry: spec_fn(int, int) -> bool,
    n_rows: nat,
    eq: Seq<F128>,
    c: int,
) -> F128 {
    fsum(n_rows, |r: int| sel(entry(r, c), eq[r]))
}

} // verus!
