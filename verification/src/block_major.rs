//! Partial folds of the block-major witness: outer block `o` holds `k / 128`
//! elements, and bit `z[i, o]` is coefficient `i % 128` of its element `i / 128`.

use crate::bits::byte_bit;
use crate::f128_slice::fmix;
use crate::field::{fadd, fbit, fmul, fzero, lemma_add_assoc, lemma_add_zero, F128};
use crate::fold::{chunk_len_at, chunk_part, div_up, lemma_fold_workers, owner_of, part8, reduce_partials, wfold, worker_part};
use crate::gather::{gather_transpose_tile, is_gather, DIRECT_FOLD_TILE_STRIPES};
use crate::par::par_map;
use crate::stripe::{owner_at, pad_to};
use crate::sums::{chunk_count, chunk_len, fsum, lemma_sum_ext, sel, zeros};
use crate::tables::{build_nibble_tables, build_sum_table, byte_sum, lemma_nibble_entry, nibble_entry, nibble_lookup, nibble_tables};
use vstd::arithmetic::power2::pow2;
use vstd::prelude::*;

verus! {

/// Outer variable count at which the outer table is kept as two factors.
pub const BLOCK_MAJOR_FACTORED_EQ_N_LOG: usize = 18;

/// Outer variables in the low factor.
pub const BLOCK_MAJOR_FACTORED_EQ_LO_LOG: usize = 9;

/// Tiles that a worker takes at a time when tiles are claimed in turn.
pub const TILE_GRAB: usize = 4;

/// The outer weights: a full table, or two factors whose products are the
/// weights, the low index selecting from the first.
#[derive(Clone, Copy)]
pub enum OuterWeights<'a> {
    Full(&'a [F128]),
    Split(&'a [F128], &'a [F128]),
}

impl<'a> OuterWeights<'a> {
    /// Number of outer indices.
    pub open spec fn count(self) -> nat {
        match self {
            OuterWeights::Full(eq) => eq@.len(),
            OuterWeights::Split(lo, hi) => lo@.len() * hi@.len(),
        }
    }

    /// The weight of each outer index.
    pub open spec fn weight(self) -> spec_fn(int) -> F128 {
        match self {
            OuterWeights::Full(eq) => |o: int| eq@[o],
            OuterWeights::Split(lo, hi) => |o: int|
                fmul(lo@[o % lo@.len() as int], hi@[o / lo@.len() as int]),
        }
    }

    /// The weight of outer index `o`.
    pub fn at(&self, o: usize) -> (r: F128)
        requires
            o < self.count(),
        ensures
            r == self.weight()(o as int),
    {
        match self {
            OuterWeights::Full(eq) => eq[o],
            OuterWeights::Split(lo, hi) => {
                let n: usize = lo.len();
                proof {
                    let (a, b, x) = (n as int, hi@.len() as int, o as int);
                    assert(a > 0) by (nonlinear_arith)
                        requires
                            0 <= x < a * b,
                            a >= 0,
                            b >= 0,
                    ;
                    vstd::arithmetic::div_mod::lemma_fundamental_div_mod(x, a);
                    assert(x / a < b) by (nonlinear_arith)
                        requires
                            a * (x / a) + x % a == x,
                            0 <= x % a,
                            x < a * b,
                            a > 0,
                    ;
                }
                lo[o % n] * hi[o / n]
            },
        }
    }

    /// The eight weights of the stripe that starts at `base`.
    pub fn eq8_at(&self, base: usize) -> (r: [F128; 8])
        requires
            base + 8 <= self.count(),
            base + 8 <= usize::MAX,
        ensures
            forall|i: int| 0 <= i < 8 ==> #[trigger] r@[i] == self.weight()(base + i),
    {
        [
            self.at(base),
            self.at(base + 1),
            self.at(base + 2),
            self.at(base + 3),
            self.at(base + 4),
            self.at(base + 5),
            self.at(base + 6),
            self.at(base + 7),
        ]
    }
}

/// The bits of inner column `i`, by outer index.
pub open spec fn block_bits(z: Seq<F128>, cpb: int, i: int) -> spec_fn(int) -> bool {
    |o: int| fbit(z[o * cpb + i / 128], (i % 128) as nat)
}

/// The fold of the first `useful` columns, zero beyond them.
pub open spec fn block_fold(
    z: Seq<F128>,
    k: int,
    n_outer: nat,
    w: spec_fn(int) -> F128,
    useful: int,
) -> Seq<F128> {
    Seq::new(
        k as nat,
        |i: int|
            if i < useful {
                wfold(n_outer, block_bits(z, k / 128, i), w)
            } else {
                fzero()
            },
    )
}

/// A table with its top index bit bound at `r`.
pub open spec fn bind_top(v: Seq<F128>, r: F128) -> Seq<F128> {
    Seq::new(v.len() / 2, |i: int| fmix(v[i], v[i + v.len() / 2], r))
}

/// A table, bound at the top where a challenge is given.
pub open spec fn with_bind(v: Seq<F128>, top: Option<F128>) -> Seq<F128> {
    match top {
        Some(r) => bind_top(v, r),
        None => v,
    }
}

/// Whether a block-major witness and the outer weights have the sizes of
/// `(m, k_log)`.
pub open spec fn block_shape(z: Seq<F128>, m: int, k_log: int, count: nat) -> bool {
    &&& 7 <= k_log
    &&& k_log + 3 <= m < usize::BITS
    &&& z.len() == pow2((m - k_log) as nat) * (pow2(k_log as nat) / 128)
    &&& count == pow2((m - k_log) as nat)
}

/// The eight weights of stripe `s`.
pub open spec fn eq8_of(w: spec_fn(int) -> F128, s: int) -> Seq<F128> {
    Seq::new(8, |r: int| w(8 * s + r))
}

/// The subset sum of a gathered byte is the stripe's part of the column's fold.
pub proof fn lemma_gather_part(
    z: Seq<F128>,
    cpb: int,
    base: int,
    n: int,
    q: int,
    tr: Seq<u8>,
    at: int,
    w: spec_fn(int) -> F128,
    j: int,
    b: int,
)
    requires
        is_gather(z, cpb, base, n, q, tr, at),
        0 <= j < n,
        0 <= b < 128,
        0 <= q,
    ensures
        byte_sum(tr[at + 128 * j + b], eq8_of(w, base + j)) == part8(
            block_bits(z, cpb, 128 * q + b),
            w,
            base + j,
        ),
{
    let bits = block_bits(z, cpb, 128 * q + b);
    let s = base + j;
    let f = |r: int| sel(byte_bit(tr[at + 128 * j + b], r as nat), eq8_of(w, s)[r]);
    let g = |r: int| sel(bits(8 * s + r), w(8 * s + r));
    assert forall|r: int| 0 <= r < 8 implies #[trigger] f(r) == g(r) by {
        assert(byte_bit(tr[at + 128 * j + b], r as nat) == fbit(
            z[(8 * (base + j) + (r as nat)) * cpb + q],
            b as nat,
        ));
        assert((128 * q + b) / 128 == q && (128 * q + b) % 128 == b);
    }
    lemma_sum_ext(8, f, g);
}

/// The 256-entry tables of the first `n` stripes of a tile.
pub open spec fn tile_tables_of(
    tables: Seq<F128>,
    w: spec_fn(int) -> F128,
    base: int,
    n: int,
) -> bool {
    forall|j: int, b: u8|
        0 <= j < n ==> #[trigger] tables[256 * j + b] == byte_sum(b, eq8_of(w, base + j))
}

/// `acc` with the sums `f(b)` added to its entries `at + b`, `from <= b < to`.
pub open spec fn added(
    old_acc: Seq<F128>,
    acc: Seq<F128>,
    at: int,
    from: int,
    to: int,
    f: spec_fn(int) -> F128,
) -> bool {
    &&& acc.len() == old_acc.len()
    &&& forall|i: int|
        0 <= i < acc.len() ==> #[trigger] acc[i] == if at + from <= i < at + to {
            fadd(old_acc[i], f(i - at))
        } else {
            old_acc[i]
        }
}

/// The table entries that `n` stripes select at column `b`.
pub open spec fn table_sum(tables: Seq<F128>, tr: Seq<u8>, n: nat, b: int) -> F128 {
    fsum(n, |j: int| tables[256 * j + tr[128 * j + b]])
}

/// Adds the table entries of `n` stripes to the columns `from..to` of a chunk.
pub fn fold_chunk_tables(
    tr: &[u8],
    tables: &[F128],
    n: usize,
    acc: &mut [F128],
    at: usize,
    from: usize,
    to: usize,
)
    requires
        n <= 8,
        tr@.len() >= 1024,
        tables@.len() >= 2048,
        from <= to <= 128,
        at + to <= old(acc)@.len(),
    ensures
        added(
            old(acc)@,
            final(acc)@,
            at as int,
            from as int,
            to as int,
            |b: int| table_sum(tables@, tr@, n as nat, b),
        ),
{
    let len: usize = acc.len();
    let ghost before = acc@;
    let ghost f = |b: int| table_sum(tables@, tr@, n as nat, b);
    let mut b: usize = from;
    while b < to
        invariant
            from <= b <= to,
            n <= 8,
            tr@.len() >= 1024,
            tables@.len() >= 2048,
            to <= 128,
            len == before.len(),
            acc@.len() == before.len(),
            at + to <= before.len(),
            f == (|b: int| table_sum(tables@, tr@, n as nat, b)),
            added(before, acc@, at as int, from as int, b as int, f),
        decreases to - b,
    {
        let mut a: F128 = acc[at + b];
        let ghost start = a;
        let ghost g = |j: int| tables@[256 * j + tr@[128 * j + b]];
        let mut j: usize = 0;
        proof {
            lemma_add_zero(start);
        }
        while j < n
            invariant
                j <= n,
                n <= 8,
                b < 128,
                tr@.len() >= 1024,
                tables@.len() >= 2048,
                g == (|j: int| tables@[256 * j + tr@[128 * j + b]]),
                a == fadd(start, fsum(j as nat, g)),
            decreases n - j,
        {
            proof {
                lemma_add_assoc(start, fsum(j as nat, g), g(j as int));
            }
            a = a + tables[256 * j + tr[128 * j + b] as usize];
            j = j + 1;
        }
        acc[at + b] = a;
        b = b + 1;
    }
}

/// Folds the leading whole groups of eight columns of a chunk and returns how
/// many columns that is.
pub fn fold_block_major_chunk_neon_x2(
    tr: &[u8],
    tables: &[F128],
    acc: &mut [F128],
    at: usize,
    chunk_bits: usize,
) -> (done: usize)
    requires
        tr@.len() >= 1024,
        tables@.len() >= 2048,
        chunk_bits <= 128,
        at + chunk_bits <= old(acc)@.len(),
    ensures
        done == 8 * (chunk_bits / 8),
        added(
            old(acc)@,
            final(acc)@,
            at as int,
            0,
            done as int,
            |b: int| table_sum(tables@, tr@, 8, b),
        ),
{
    let done: usize = 8 * (chunk_bits / 8);
    fold_chunk_tables(tr, tables, 8, acc, at, 0, done);
    done
}

/// The nibble-table entries that eight stripes select at column `b`.
pub open spec fn nibble_sum(nib: Seq<[u64; 64]>, tr: Seq<u8>, b: int) -> F128 {
    fsum(8, |j: int| nibble_entry(nib[j]@, tr[128 * j + b]))
}

/// Adds the nibble-table entries of eight stripes to the columns of a chunk.
pub fn fold_block_major_chunk_x86_avx512(
    tr: &[u8],
    nib: &Vec<[u64; 64]>,
    acc: &mut [F128],
    at: usize,
    chunk_bits: usize,
)
    requires
        tr@.len() >= 1024,
        nib@.len() == 8,
        chunk_bits <= 128,
        at + chunk_bits <= old(acc)@.len(),
    ensures
        added(
            old(acc)@,
            final(acc)@,
            at as int,
            0,
            chunk_bits as int,
            |b: int| nibble_sum(nib@, tr@, b),
        ),
{
    let len: usize = acc.len();
    let ghost before = acc@;
    let ghost f = |b: int| nibble_sum(nib@, tr@, b);
    let mut b: usize = 0;
    while b < chunk_bits
        invariant
            b <= chunk_bits,
            tr@.len() >= 1024,
            nib@.len() == 8,
            chunk_bits <= 128,
            len == before.len(),
            acc@.len() == before.len(),
            at + chunk_bits <= before.len(),
            f == (|b: int| nibble_sum(nib@, tr@, b)),
            added(before, acc@, at as int, 0, b as int, f),
        decreases chunk_bits - b,
    {
        let mut a: F128 = acc[at + b];
        let ghost start = a;
        let ghost g = |j: int| nibble_entry(nib@[j]@, tr@[128 * j + b]);
        let mut j: usize = 0;
        proof {
            lemma_add_zero(start);
        }
        while j < 8
            invariant
                j <= 8,
                b < 128,
                tr@.len() >= 1024,
                nib@.len() == 8,
                g == (|j: int| nibble_entry(nib@[j]@, tr@[128 * j + b])),
                a == fadd(start, fsum(j as nat, g)),
            decreases 8 - j,
        {
            proof {
                lemma_add_assoc(start, fsum(j as nat, g), g(j as int));
            }
            a = a + nibble_lookup(&nib[j], tr[128 * j + b]);
            j = j + 1;
        }
        acc[at + b] = a;
        b = b + 1;
    }
}

/// Builds the 256-entry tables of `n` stripes.
fn build_tile_tables(w: &OuterWeights, base: usize, n: usize, tables: &mut Vec<F128>)
    requires
        n <= 8,
        8 * (base + n) <= w.count(),
        w.count() <= usize::MAX,
        old(tables)@.len() == 2048,
    ensures
        final(tables)@.len() == 2048,
        tile_tables_of(final(tables)@, w.weight(), base as int, n as int),
{
    let mut j: usize = 0;
    while j < n
        invariant
            j <= n,
            n <= 8,
            8 * (base + n) <= w.count(),
            w.count() <= usize::MAX,
            tables@.len() == 2048,
            tile_tables_of(tables@, w.weight(), base as int, j as int),
        decreases n - j,
    {
        let eq8: [F128; 8] = w.eq8_at(8 * (base + j));
        let ghost before = tables@;
        build_sum_table(&eq8, tables, 256 * j);
        proof {
            assert(eq8@ =~= eq8_of(w.weight(), (base + j) as int));
            assert forall|t: int, b: u8| 0 <= t < j + 1 implies #[trigger] tables@[256 * t + b]
                == byte_sum(b, eq8_of(w.weight(), base + t)) by {
                if t < j {
                    assert(tables@[256 * t + b] == before[256 * t + b]);
                } else {
                    assert(tables@[(256 * j) as int + b] == byte_sum(b, eq8@));
                }
            }
        }
        j = j + 1;
    }
}

/// Builds the nibble tables of the eight stripes of a full tile.
fn build_tile_nibbles(w: &OuterWeights, base: usize) -> (nib: Vec<[u64; 64]>)
    requires
        8 * (base + 8) <= w.count(),
        w.count() <= usize::MAX,
    ensures
        nib@.len() == 8,
        forall|j: int|
            0 <= j < 8 ==> nibble_tables(
                eq8_of(w.weight(), base + j),
                (#[trigger] nib@[j])@,
            ),
{
    let mut nib: Vec<[u64; 64]> = Vec::new();
    let mut j: usize = 0;
    while j < 8
        invariant
            j <= 8,
            8 * (base + 8) <= w.count(),
            w.count() <= usize::MAX,
            nib@.len() == j,
            forall|t: int|
                0 <= t < j ==> nibble_tables(
                    eq8_of(w.weight(), base + t),
                    (#[trigger] nib@[t])@,
                ),
        decreases 8 - j,
    {
        let eq8: [F128; 8] = w.eq8_at(8 * (base + j));
        let mut one: [u64; 64] = [0u64;64];
        build_nibble_tables(&eq8, &mut one);
        proof {
            assert(eq8@ =~= eq8_of(w.weight(), (base + j) as int));
        }
        nib.push(one);
        j = j + 1;
    }
    nib
}

/// How a block-major fold is carried out. Every choice gives the same result.
#[derive(Clone, Copy, Debug, PartialEq, Eq)]
pub struct FoldOptions {
    /// Accumulate byte planes through bit matrices where the shape allows it.
    pub gfni: bool,
    /// Use nibble tables on full tiles.
    pub nibble: bool,
    /// Hand tiles out in turn instead of in one contiguous run per worker.
    pub dynamic: bool,
    /// Transpose by byte selectors.
    pub fuse: bool,
}

impl FoldOptions {
    /// Byte tables, tiles handed out in turn.
    pub fn portable() -> (r: FoldOptions)
        ensures
            r == (FoldOptions { gfni: false, nibble: false, dynamic: true, fuse: false }),
    {
        FoldOptions { gfni: false, nibble: false, dynamic: true, fuse: false }
    }
}

/// Adds one tile of `n` stripes to the accumulators of the useful columns.
fn tile_step(
    z: &[F128],
    cpb: usize,
    n_stripes: usize,
    w: &OuterWeights,
    base: usize,
    n: usize,
    opts: FoldOptions,
    tables: &mut Vec<F128>,
    acc: &mut Vec<F128>,
)
    requires
        0 < n <= 8,
        base + n <= n_stripes,
        z@.len() == 8 * n_stripes * cpb,
        w.count() == 8 * n_stripes,
        w.count() <= usize::MAX,
        old(tables)@.len() == 2048,
        old(acc)@.len() <= 128 * cpb,
    ensures
        final(tables)@.len() == 2048,
        final(acc)@.len() == old(acc)@.len(),
        forall|i: int|
            0 <= i < old(acc)@.len() ==> #[trigger] final(acc)@[i] == fadd(
                old(acc)@[i],
                fsum(
                    n as nat,
                    |j: int| part8(block_bits(z@, cpb as int, i), w.weight(), base + j),
                ),
            ),
{
    let use_nibble: bool = opts.nibble && n == DIRECT_FOLD_TILE_STRIPES;
    let mut nib: Vec<[u64; 64]> = Vec::new();
    if use_nibble {
        nib = build_tile_nibbles(w, base);
    } else {
        build_tile_tables(w, base, n, tables);
    }
    let useful: usize = acc.len();
    let mut tr: Vec<u8> = vec![0u8; 1024];
    let ghost before = acc@;
    let chunks: usize = div_up(useful, 128);
    let mut q: usize = 0;
    while q < chunks
        invariant
            q <= chunks,
            chunks == chunk_count(useful as nat, 128),
            0 < n <= 8,
            base + n <= n_stripes,
            z@.len() == 8 * n_stripes * cpb,
            w.count() == 8 * n_stripes,
            tr@.len() == 1024,
            tables@.len() == 2048,
            useful == before.len(),
            useful <= 128 * cpb,
            acc@.len() == before.len(),
            use_nibble ==> n == 8 && nib@.len() == 8 && forall|j: int|
                0 <= j < 8 ==> nibble_tables(
                    eq8_of(w.weight(), base + j),
                    (#[trigger] nib@[j])@,
                ),
            !use_nibble ==> tile_tables_of(tables@, w.weight(), base as int, n as int),
            forall|i: int|
                0 <= i < useful ==> #[trigger] acc@[i] == if i < 128 * q {
                    fadd(
                        before[i],
                        fsum(
                            n as nat,
                            |j: int| part8(block_bits(z@, cpb as int, i), w.weight(), base + j),
                        ),
                    )
                } else {
                    before[i]
                },
        decreases chunks - q,
    {
        proof {
            crate::sums::lemma_chunk_bounds(useful as nat, 128, q as int);
        }
        let inner_base: usize = 128 * q;
        let rest: usize = useful - inner_base;
        let bits: usize = if rest < 128 {
            rest
        } else {
            128
        };
        gather_transpose_tile(z, cpb, n_stripes, base, n, q, opts.fuse, &mut tr, 0);
        let ghost mid = acc@;
        if use_nibble {
            fold_block_major_chunk_x86_avx512(&tr, &nib, acc, inner_base, bits);
        } else {
            let done: usize = if n == DIRECT_FOLD_TILE_STRIPES {
                fold_block_major_chunk_neon_x2(&tr, tables, acc, inner_base, bits)
            } else {
                0
            };
            fold_chunk_tables(&tr, tables, n, acc, inner_base, done, bits);
        }
        proof {
            assert forall|i: int| 0 <= i < useful implies #[trigger] acc@[i] == if i < 128 * (q
                + 1) {
                fadd(
                    before[i],
                    fsum(
                        n as nat,
                        |j: int| part8(block_bits(z@, cpb as int, i), w.weight(), base + j),
                    ),
                )
            } else {
                before[i]
            } by {
                if 128 * q <= i < 128 * (q + 1) {
                    let b = i - 128 * q;
                    lemma_column_sum(
                        z@,
                        cpb as int,
                        base as int,
                        n as nat,
                        q as int,
                        tr@,
                        w.weight(),
                        tables@,
                        nib@,
                        use_nibble,
                        b,
                    );
                }
            }
        }
        q = q + 1;
    }
}

/// Either kind of table selects the column's parts of the tile.
proof fn lemma_column_sum(
    z: Seq<F128>,
    cpb: int,
    base: int,
    n: nat,
    q: int,
    tr: Seq<u8>,
    w: spec_fn(int) -> F128,
    tables: Seq<F128>,
    nib: Seq<[u64; 64]>,
    use_nibble: bool,
    b: int,
)
    requires
        n <= 8,
        0 <= q,
        0 <= b < 128,
        is_gather(z, cpb, base, n as int, q, tr, 0),
        use_nibble ==> n == 8 && nib.len() == 8 && forall|j: int|
            0 <= j < 8 ==> nibble_tables(eq8_of(w, base + j), (#[trigger] nib[j])@),
        !use_nibble ==> tile_tables_of(tables, w, base, n as int),
    ensures
        use_nibble ==> nibble_sum(nib, tr, b) == fsum(
            n,
            |j: int| part8(block_bits(z, cpb, 128 * q + b), w, base + j),
        ),
        !use_nibble ==> table_sum(tables, tr, n, b) == fsum(
            n,
            |j: int| part8(block_bits(z, cpb, 128 * q + b), w, base + j),
        ),
{
    let g = |j: int| part8(block_bits(z, cpb, 128 * q + b), w, base + j);
    if use_nibble {
        let f = |j: int| nibble_entry(nib[j]@, tr[128 * j + b]);
        assert forall|j: int| 0 <= j < n implies #[trigger] f(j) == g(j) by {
            lemma_gather_part(z, cpb, base, n as int, q, tr, 0, w, j, b);
            assert(nibble_tables(eq8_of(w, base + j), nib[j]@));
            lemma_nibble_entry(eq8_of(w, base + j), nib[j]@, tr[128 * j + b]);
        }
        lemma_sum_ext(n, f, g);
    } else {
        let f = |j: int| tables[256 * j + tr[128 * j + b]];
        assert forall|j: int| 0 <= j < n implies #[trigger] f(j) == g(j) by {
            lemma_gather_part(z, cpb, base, n as int, q, tr, 0, w, j, b);
            let x = tr[128 * j + b];
            assert(tables[256 * j + x] == byte_sum(x, eq8_of(w, base + j)));
        }
        lemma_sum_ext(n, f, g);
    }
}

/// What worker `v` accumulates for the useful columns.
fn block_worker(
    z: &[F128],
    cpb: usize,
    n_stripes: usize,
    w: &OuterWeights,
    useful: usize,
    opts: FoldOptions,
    grab: usize,
    workers: usize,
    v: usize,
) -> (acc: Vec<F128>)
    requires
        grab > 0,
        workers > 0,
        z@.len() == 8 * n_stripes * cpb,
        w.count() == 8 * n_stripes,
        w.count() <= usize::MAX,
        useful <= 128 * cpb,
    ensures
        acc@.len() == useful,
        forall|i: int|
            0 <= i < useful ==> #[trigger] acc@[i] == worker_part(
                block_bits(z@, cpb as int, i),
                w.weight(),
                n_stripes as nat,
                8,
                grab as int,
                workers as int,
                v as int,
            ),
{
    let mut acc: Vec<F128> = zeros(useful);
    let mut tables: Vec<F128> = zeros(2048);
    let tiles: usize = div_up(n_stripes, DIRECT_FOLD_TILE_STRIPES);
    let mut t: usize = 0;
    while t < tiles
        invariant
            t <= tiles,
            grab > 0,
            workers > 0,
            tiles == chunk_count(n_stripes as nat, 8),
            z@.len() == 8 * n_stripes * cpb,
            w.count() == 8 * n_stripes,
            w.count() <= usize::MAX,
            useful <= 128 * cpb,
            acc@.len() == useful,
            tables@.len() == 2048,
            forall|i: int|
                0 <= i < useful ==> #[trigger] acc@[i] == fsum(
                    t as nat,
                    |u: int|
                        sel(
                            owner_of(u, grab as int, workers as int) == v,
                            chunk_part(
                                block_bits(z@, cpb as int, i),
                                w.weight(),
                                n_stripes as nat,
                                8,
                                u,
                            ),
                        ),
                ),
        decreases tiles - t,
    {
        let ghost before = acc@;
        if owner_at(t, grab, workers) == v {
            let n: usize = chunk_len_at(n_stripes, DIRECT_FOLD_TILE_STRIPES, t);
            tile_step(
                z,
                cpb,
                n_stripes,
                w,
                t * DIRECT_FOLD_TILE_STRIPES,
                n,
                opts,
                &mut tables,
                &mut acc,
            );
        }
        proof {
            assert forall|i: int| 0 <= i < useful implies #[trigger] acc@[i] == fsum(
                (t + 1) as nat,
                |u: int|
                    sel(
                        owner_of(u, grab as int, workers as int) == v,
                        chunk_part(
                            block_bits(z@, cpb as int, i),
                            w.weight(),
                            n_stripes as nat,
                            8,
                            u,
                        ),
                    ),
            ) by {
                lemma_add_zero(before[i]);
                let n = chunk_len(n_stripes as nat, 8, t as int);
                let bits = block_bits(z@, cpb as int, i);
                lemma_sum_ext(
                    n,
                    |j: int| part8(bits, w.weight(), (t * DIRECT_FOLD_TILE_STRIPES) as int + j),
                    |j: int| part8(bits, w.weight(), (t as int) * 8 + j),
                );
            }
        }
        t = t + 1;
    }
    acc
}

/// Adding up the workers' accumulators gives the fold.
pub proof fn lemma_block_workers(
    z: Seq<F128>,
    cpb: int,
    n_stripes: nat,
    w: spec_fn(int) -> F128,
    grab: int,
    workers: nat,
    i: int,
    held: spec_fn(int) -> F128,
)
    requires
        grab > 0,
        workers > 0,
        forall|v: int|
            0 <= v < workers ==> #[trigger] held(v) == worker_part(
                block_bits(z, cpb, i),
                w,
                n_stripes,
                8,
                grab,
                workers as int,
                v,
            ),
    ensures
        fsum(workers, held) == wfold(8 * n_stripes, block_bits(z, cpb, i), w),
{
    let bits = block_bits(z, cpb, i);
    lemma_fold_workers(n_stripes, 8, grab, workers, bits, w);
    lemma_sum_ext(
        workers,
        held,
        |v: int| worker_part(bits, w, n_stripes, 8, grab, workers as int, v),
    );
}

/// The table sweep: private accumulators per worker, added up at the end.
pub fn block_sweep(
    z: &[F128],
    k: usize,
    n_stripes: usize,
    w: &OuterWeights,
    useful: usize,
    opts: FoldOptions,
    grab: usize,
    workers: usize,
) -> (out: Vec<F128>)
    requires
        grab > 0,
        workers > 0,
        k % 128 == 0,
        z@.len() == 8 * n_stripes * (k / 128),
        w.count() == 8 * n_stripes,
        w.count() <= usize::MAX,
        useful <= k,
    ensures
        out@ == block_fold(z@, k as int, (8 * n_stripes) as nat, w.weight(), useful as int),
{
    let cpb: usize = k / 128;
    let f = |v: usize| -> (r: Vec<F128>)
        requires
            grab > 0,
            workers > 0,
            z@.len() == 8 * n_stripes * cpb,
            w.count() == 8 * n_stripes,
            w.count() <= usize::MAX,
            useful <= 128 * cpb,
        ensures
            r@.len() == useful,
            forall|i: int|
                0 <= i < useful ==> #[trigger] r@[i] == worker_part(
                    block_bits(z@, cpb as int, i),
                    w.weight(),
                    n_stripes as nat,
                    8,
                    grab as int,
                    workers as int,
                    v as int,
                ),
    { block_worker(z, cpb, n_stripes, w, useful, opts, grab, workers, v) };
    let partials: Vec<Vec<F128>> = par_map(workers, f);
    let mut out: Vec<F128> = reduce_partials(&partials, useful);
    proof {
        assert forall|i: int| 0 <= i < useful implies #[trigger] out@[i] == wfold(
            (8 * n_stripes) as nat,
            block_bits(z@, cpb as int, i),
            w.weight(),
        ) by {
            let held = |v: int| partials@[v]@[i];
            lemma_block_workers(
                z@,
                cpb as int,
                n_stripes as nat,
                w.weight(),
                grab as int,
                workers as nat,
                i,
                held,
            );
        }
    }
    pad_to(&mut out, k);
    proof {
        assert(out@ =~= block_fold(
            z@,
            k as int,
            (8 * n_stripes) as nat,
            w.weight(),
            useful as int,
        ));
    }
    out
}

/// Binds the top index bit of a table at `r`, halving it.
pub fn bind_top_vec(v: &mut Vec<F128>, r: F128)
    requires
        old(v)@.len() % 2 == 0,
    ensures
        final(v)@ == bind_top(old(v)@, r),
{
    let half: usize = v.len() / 2;
    let ghost before = v@;
    let mut i: usize = 0;
    let len: usize = v.len();
    while i < half
        invariant
            i <= half,
            len == 2 * half,
            len == before.len(),
            v@.len() == before.len(),
            forall|j: int| 0 <= j < i ==> #[trigger] v@[j] == fmix(before[j], before[j + half], r),
            forall|j: int| i <= j < before.len() ==> #[trigger] v@[j] == before[j],
        decreases half - i,
    {
        let a: F128 = v[i];
        let b: F128 = v[i + half];
        v.set(i, a + r * (a + b));
        i = i + 1;
    }
    v.truncate(half);
    proof {
        assert(v@ =~= bind_top(before, r));
    }
}

} // verus!
