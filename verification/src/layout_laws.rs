//! Where each bit of a packed witness and each entry of a matrix stands, and what folds of
//! them are, down to shifts and sums.

use crate::block_major::block_bits;
use crate::circuit::{comb_table, LincheckCircuit, SparseMatrixCircuit};
use crate::csc::{col_rows, col_start, row_rep, CscCircuit};
use crate::dispatch::{block_fold_at, fold_granule, FoldArch};
use crate::eq::{eq_table, eq_weight};
use crate::field::{fadd, fmul, fone, fzero, F128};
use crate::fold::items_per_task;
use crate::gfni::one_rows;
use crate::lincheck::{witness_fold, PackedZ};
use crate::r1cs::{hits, SparseBinaryMatrix};
use crate::stripe::{is_stripe_fold, live_cols, logical_bit, stripe_bits, weights};
use crate::sums::{fsum, lemma_sum_ext, sel};
use vstd::arithmetic::power2::pow2;
use vstd::prelude::*;

verus! {

/// Bit `o % 8` of the byte that stripe `o / 8` holds for column `i`.
pub open spec fn stripe_bit_at(z: Seq<u8>, k: int, i: int, o: int) -> bool {
    (z[(o / 8) * k + i] >> ((o % 8) as u8)) & 1 == 1
}

/// Bit `b` of a 128-bit word, the low half first.
pub open spec fn bit_of_word(v: F128, b: int) -> bool {
    if b < 64 {
        (v.lo >> (b as u64)) & 1 == 1
    } else {
        (v.hi >> ((b - 64) as u64)) & 1 == 1
    }
}

/// Bit `i % 128` of word `i / 128` of block `o`, where a block is `k` bits.
pub open spec fn block_bit_at(z: Seq<F128>, k: int, i: int, o: int) -> bool {
    bit_of_word(z[o * (k / 128) + i / 128], i % 128)
}

/// Where the bits of the two layouts stand, and where a bit of the plain packing does.
pub proof fn lemma_bit_places(bytes: Seq<u8>, words: Seq<F128>, k: int, i: int, o: int, j: int)
    requires
        0 <= i,
        0 <= o,
        0 <= j,
    ensures
        stripe_bits(bytes, k, i)(o) == stripe_bit_at(bytes, k, i, o),
        block_bits(words, k / 128, i)(o) == block_bit_at(words, k, i, o),
        logical_bit(words, j) == bit_of_word(words[j / 128], j % 128),
{
}

/// A stripe fold, column by column: the weights of the rows whose bit is set, added up, and
/// zero past the columns that are folded.
pub proof fn lemma_stripe_fold_columns(
    z: Seq<u8>,
    k: int,
    eq: Seq<F128>,
    live: int,
    out: Seq<F128>,
    c: int,
)
    requires
        is_stripe_fold(z, k, eq, live, out),
        0 <= c < k,
    ensures
        out.len() == k,
        out[c] == if c < live {
            fsum(eq.len(), |o: int| sel(stripe_bit_at(z, k, c, o), eq[o]))
        } else {
            fzero()
        },
{
    if c < live {
        lemma_sum_ext(
            eq.len(),
            |o: int| sel(stripe_bits(z, k, c)(o), weights(eq)(o)),
            |o: int| sel(stripe_bit_at(z, k, c, o), eq[o]),
        );
    }
}

/// Rounding up the columns: the least multiple of the granule that covers them, cut at the
/// width.
pub proof fn lemma_live_columns(n: int, g: int, k: int)
    requires
        0 <= n <= k,
        g > 0,
    ensures
        n <= live_cols(n, g, k) <= k,
        live_cols(n, g, k) < n + g,
        live_cols(n, g, k) % g == 0 || live_cols(n, g, k) == k,
        g == 1 ==> live_cols(n, g, k) == n,
{
    let q = (n + g - 1) / g;
    let up = q * g;
    vstd::arithmetic::div_mod::lemma_fundamental_div_mod(n + g - 1, g);
    vstd::arithmetic::div_mod::lemma_mod_bound(n + g - 1, g);
    assert(g * q == up) by (nonlinear_arith)
        requires
            up == q * g,
    ;
    vstd::arithmetic::div_mod::lemma_mod_multiples_basic(q, g);
}

/// What the prover folds, whatever stands in the padding: a useful column is the sum of the
/// equality weights of the blocks that have its bit set; one past the useful columns is that
/// sum or zero, and zero from the next multiple of 64 on. In the block-major layout, and
/// with one table per stripe, every column past the useful ones is zero.
pub proof fn lemma_witness_columns(
    z: PackedZ,
    m: int,
    k_log: nat,
    useful: int,
    x_outer: Seq<F128>,
    arch: FoldArch,
    c: int,
)
    requires
        0 <= useful <= pow2(k_log),
        0 <= c < pow2(k_log),
    ensures
        ({
            let k = pow2(k_log) as int;
            let out = witness_fold(z, m, k_log, useful, x_outer, arch);
            let sum = match z {
                PackedZ::LincheckStripe(bytes) => fsum(
                    pow2(x_outer.len()),
                    |o: int| sel(stripe_bit_at(bytes@, k, c, o), eq_weight(x_outer, o)),
                ),
                PackedZ::BlockMajor(words) => fsum(
                    pow2(x_outer.len()),
                    |o: int| sel(block_bit_at(words@, k, c, o), eq_weight(x_outer, o)),
                ),
            };
            &&& out.len() == k
            &&& c < useful ==> out[c] == sum
            &&& out[c] == sum || out[c] == fzero()
            &&& c >= useful + 64 ==> out[c] == fzero()
            &&& c >= useful && (z is BlockMajor || arch is Portable) ==> out[c] == fzero()
        }),
{
    let k = pow2(k_log) as int;
    let n = pow2(x_outer.len());
    match z {
        PackedZ::LincheckStripe(bytes) => {
            let g = crate::dispatch::fold_granule(arch, m, k_log as int);
            lemma_live_columns(useful, g, k);
            let eq = eq_table(x_outer);
            lemma_sum_ext(
                n,
                |o: int| sel(stripe_bits(bytes@, k, c)(o), weights(eq)(o)),
                |o: int| sel(stripe_bit_at(bytes@, k, c, o), eq_weight(x_outer, o)),
            );
        },
        PackedZ::BlockMajor(words) => {
            lemma_block_fold_at_column(words@, k, x_outer, useful, c);
        },
    }
}

/// A block-major fold at an outer point, column by column.
pub proof fn lemma_block_fold_at_column(
    z: Seq<F128>,
    k: int,
    x_outer: Seq<F128>,
    useful: int,
    c: int,
)
    requires
        0 <= c < k,
    ensures
        block_fold_at(z, k, x_outer, useful).len() == k,
        block_fold_at(z, k, x_outer, useful)[c] == if c < useful {
            fsum(
                pow2(x_outer.len()),
                |o: int| sel(block_bit_at(z, k, c, o), eq_weight(x_outer, o)),
            )
        } else {
            fzero()
        },
{
    if c < useful {
        lemma_sum_ext(
            pow2(x_outer.len()),
            |o: int| sel(block_bits(z, k / 128, c)(o), (|o: int| eq_weight(x_outer, o))(o)),
            |o: int| sel(block_bit_at(z, k, c, o), eq_weight(x_outer, o)),
        );
    }
}

proof fn lemma_hits_filter(row: Seq<usize>, c: int, n: nat)
    requires
        n <= row.len(),
    ensures
        hits(row, c, n) == row.take(n as int).filter(|x: usize| x == c).len(),
    decreases n,
{
    let f = |x: usize| x == c;
    reveal(Seq::filter);
    if n == 0 {
        assert(row.take(0).len() == 0);
    } else {
        lemma_hits_filter(row, c, (n - 1) as nat);
        assert(row.take(n as int).drop_last() =~= row.take(n - 1));
        assert(row.take(n as int).last() == row[n - 1]);
    }
}

/// An entry of a sparse matrix is one exactly where its row lists its column an odd number
/// of times.
pub proof fn lemma_entry_is_parity(m: SparseBinaryMatrix, r: int, c: int)
    ensures
        m.entry()(r, c) <==> m.rows@[r]@.filter(|x: usize| x == c).len() % 2 == 1,
{
    let row = m.rows@[r]@;
    lemma_hits_filter(row, c, row.len());
    assert(row.take(row.len() as int) =~= row);
}

/// A circuit over sparse matrices has their entries and sizes, and so has its
/// column-by-column form.
pub proof fn lemma_circuits_hold_their_matrices(
    s: SparseMatrixCircuit<'_>,
    q: CscCircuit,
    a_0: &SparseBinaryMatrix,
    b_0: &SparseBinaryMatrix,
    r: int,
    c: int,
)
    requires
        0 <= r < a_0.num_rows,
        0 <= c < a_0.num_cols,
    ensures
        s.a_entry()(r, c) <==> s.a_0.rows@[r]@.filter(|x: usize| x == c).len() % 2 == 1,
        s.b_entry()(r, c) <==> s.b_0.rows@[r]@.filter(|x: usize| x == c).len() % 2 == 1,
        s.cols() == s.a_0.num_cols && s.row_count() == s.a_0.num_rows && s.pin() == s.const_pin,
        q.describes(a_0, b_0) ==> {
            &&& q.cols() == a_0.num_cols && q.row_count() == a_0.num_rows
            &&& q.a_entry()(r, c) <==> a_0.rows@[r]@.filter(|x: usize| x == c).len() % 2 == 1
            &&& q.b_entry()(r, c) <==> b_0.rows@[r]@.filter(|x: usize| x == c).len() % 2 == 1
        },
{
    lemma_entry_is_parity(*s.a_0, r, c);
    lemma_entry_is_parity(*s.b_0, r, c);
    lemma_entry_is_parity(*a_0, r, c);
    lemma_entry_is_parity(*b_0, r, c);
}

/// The batched table, column by column: the weights of the rows with a one in the first
/// matrix, scaled, and those of the second.
pub proof fn lemma_batched_columns(
    a: spec_fn(int, int) -> bool,
    b: spec_fn(int, int) -> bool,
    n_rows: nat,
    n_cols: nat,
    alpha: F128,
    eq: Seq<F128>,
    c: int,
)
    requires
        0 <= c < n_cols,
    ensures
        comb_table(a, b, n_rows, n_cols, alpha, eq).len() == n_cols,
        comb_table(a, b, n_rows, n_cols, alpha, eq)[c] == fadd(
            fmul(alpha, fsum(n_rows, |r: int| sel(a(r, c), eq[r]))),
            fsum(n_rows, |r: int| sel(b(r, c), eq[r])),
        ),
        crate::r1cs::marginal(a, n_rows, eq, c) == fsum(n_rows, |r: int| sel(a(r, c), eq[r])),
{
}

/// How many entries the first `n` rows list.
pub open spec fn entries_listed(m: SparseBinaryMatrix, n: nat) -> nat
    decreases n,
{
    if n == 0 {
        0
    } else {
        entries_listed(m, (n - 1) as nat) + m.rows@[n - 1]@.len()
    }
}

spec fn row_share(row: Seq<usize>, r: int, j: nat, n_cols: nat) -> nat
    decreases n_cols,
{
    if n_cols == 0 {
        0
    } else {
        row_share(row, r, j, (n_cols - 1) as nat) + row_rep(row, n_cols - 1, r, j).len()
    }
}

spec fn column_share(m: SparseBinaryMatrix, n: nat, n_cols: nat) -> nat
    decreases n_cols,
{
    if n_cols == 0 {
        0
    } else {
        column_share(m, n, (n_cols - 1) as nat) + col_rows(&m, n_cols - 1, n).len()
    }
}

proof fn lemma_row_share_step(row: Seq<usize>, r: int, j: nat, n_cols: nat)
    requires
        j > 0,
    ensures
        row_share(row, r, j, n_cols) == row_share(row, r, (j - 1) as nat, n_cols) + if row[j - 1]
            < n_cols {
            1nat
        } else {
            0nat
        },
    decreases n_cols,
{
    if n_cols > 0 {
        lemma_row_share_step(row, r, j, (n_cols - 1) as nat);
    }
}

proof fn lemma_row_share(row: Seq<usize>, r: int, j: nat, n_cols: nat)
    requires
        j <= row.len(),
        forall|i: int| 0 <= i < row.len() ==> #[trigger] row[i] < n_cols,
    ensures
        row_share(row, r, j, n_cols) == j,
    decreases j,
{
    if j > 0 {
        lemma_row_share(row, r, (j - 1) as nat, n_cols);
        lemma_row_share_step(row, r, j, n_cols);
    } else {
        lemma_no_row_share(row, r, n_cols);
    }
}

proof fn lemma_no_row_share(row: Seq<usize>, r: int, n_cols: nat)
    ensures
        row_share(row, r, 0, n_cols) == 0,
    decreases n_cols,
{
    if n_cols > 0 {
        lemma_no_row_share(row, r, (n_cols - 1) as nat);
    }
}

proof fn lemma_column_share_step(m: SparseBinaryMatrix, n: nat, n_cols: nat)
    requires
        n > 0,
    ensures
        column_share(m, n, n_cols) == column_share(m, (n - 1) as nat, n_cols) + row_share(
            m.row(n - 1),
            n - 1,
            m.row(n - 1).len(),
            n_cols,
        ),
    decreases n_cols,
{
    if n_cols > 0 {
        lemma_column_share_step(m, n, (n_cols - 1) as nat);
    }
}

proof fn lemma_no_column_share(m: SparseBinaryMatrix, n_cols: nat)
    ensures
        column_share(m, 0, n_cols) == 0,
    decreases n_cols,
{
    if n_cols > 0 {
        lemma_no_column_share(m, (n_cols - 1) as nat);
    }
}

proof fn lemma_column_share(m: SparseBinaryMatrix, n: nat)
    requires
        m.wf(),
        n <= m.num_rows,
    ensures
        column_share(m, n, m.num_cols as nat) == entries_listed(m, n),
    decreases n,
{
    if n > 0 {
        lemma_column_share(m, (n - 1) as nat);
        lemma_column_share_step(m, n, m.num_cols as nat);
        lemma_row_share(m.row(n - 1), n - 1, m.row(n - 1).len(), m.num_cols as nat);
    } else {
        lemma_no_column_share(m, m.num_cols as nat);
    }
}

proof fn lemma_starts_are_shares(m: SparseBinaryMatrix, c: nat)
    ensures
        col_start(&m, c) == column_share(m, m.num_rows as nat, c),
    decreases c,
{
    if c > 0 {
        lemma_starts_are_shares(m, (c - 1) as nat);
    }
}

/// The column lists together hold as many row indices as the rows list columns: an entry
/// that is listed twice is held twice.
pub proof fn lemma_lists_hold_every_entry(m: SparseBinaryMatrix)
    requires
        m.wf(),
    ensures
        col_start(&m, m.num_cols as nat) == entries_listed(m, m.num_rows as nat),
{
    lemma_starts_are_shares(m, m.num_cols as nat);
    lemma_column_share(m, m.num_rows as nat);
}

/// In how large steps columns are folded: one by one in the portable kernel and where tiles
/// do not fit, in eights in the tiled kernels, and in blocks of 64 in the affine one.
pub proof fn lemma_fold_granules(arch: FoldArch, gfni: bool, m: int, k_log: int)
    ensures
        k_log < 3 || m - k_log < 6 ==> fold_granule(arch, m, k_log) == 1,
        fold_granule(FoldArch::Portable, m, k_log) == 1,
        k_log >= 3 && m - k_log >= 6 ==> {
            &&& arch is Aarch64 ==> fold_granule(arch, m, k_log) == 8
            &&& fold_granule(FoldArch::X86 { gfni: false }, m, k_log) == 8
            &&& k_log < 6 ==> fold_granule(FoldArch::X86 { gfni }, m, k_log) == 8
            &&& k_log >= 6 && 16 * pow2(k_log as nat) <= usize::MAX ==> fold_granule(
                FoldArch::X86 { gfni: true },
                m,
                k_log,
            ) == 64
        },
{
}

/// The constant-one rows by column: below 1152 the low half weighs `1 + r`, from 6912 to
/// 7167 the high half weighs `r`, and no other column has a part.
pub proof fn lemma_constant_one_rows(full: Seq<F128>, r: F128, c: int)
    requires
        0 <= c < full.len() / 2,
    ensures
        one_rows(full, r).len() == full.len() / 2,
        c < 1152 ==> one_rows(full, r)[c] == fmul(fadd(fone(), r), full[c]),
        6912 <= c < 7168 ==> one_rows(full, r)[c] == fmul(r, full[c + full.len() / 2]),
        1152 <= c < 6912 || c >= 7168 ==> one_rows(full, r)[c] == fzero(),
{
}

/// How work is shared: tasks of at least `least` items that four for each thread cover, and
/// no larger than that takes.
pub proof fn lemma_tasks_cover(n: nat, threads: int, least: nat)
    ensures
        ({
            let t = 4 * (if threads < 1 {
                1
            } else {
                threads
            });
            let per = items_per_task(n, threads, least) as int;
            &&& per >= least
            &&& per * t >= n
            &&& per == least || (per - 1) * t < n
        }),
{
    let t = 4 * (if threads < 1 {
        1
    } else {
        threads
    });
    let x = n + t - 1;
    let q = x / t;
    vstd::arithmetic::div_mod::lemma_fundamental_div_mod(x, t);
    vstd::arithmetic::div_mod::lemma_mod_bound(x, t);
    assert(q * t == t * q && (q - 1) * t == t * q - t) by (nonlinear_arith);
    let per = items_per_task(n, threads, least) as int;
    if per == least {
        assert(per * t >= q * t) by (nonlinear_arith)
            requires
                per >= q,
                t >= 0,
        ;
    }
}

} // verus!
