//! What the folds have in common, whichever layout and kernel computed them.

use crate::block_major::{block_bits, block_fold, with_bind};
use crate::field::{fadd, fmul, fzero, lemma_add_comm, F128};
use crate::fold::wfold;
use crate::num::lemma_row_div;
use crate::stripe::{is_stripe_fold, logical_bit, stripe_bits, stripe_fold, weights};
use crate::sums::{fsum, lemma_sum_ext, lemma_sum_zero, sel};
use vstd::prelude::*;

verus! {

/// The bit of inner column `i` and outer index `o` is bit `i + o * k` of the
/// packed witness.
pub proof fn lemma_block_bit_is_logical(z: Seq<F128>, k: int, i: int, o: int)
    requires
        k > 0,
        k % 128 == 0,
        0 <= i < k,
        0 <= o,
    ensures
        block_bits(z, k / 128, i)(o) == logical_bit(z, i + o * k),
{
    let c = k / 128;
    let (q, b) = (i / 128, i % 128);
    assert(i + o * k == (o * c + q) * 128 + b) by (nonlinear_arith)
        requires
            k == 128 * c,
            i == 128 * q + b,
    ;
    assert(o * c + q >= 0) by (nonlinear_arith)
        requires
            o >= 0,
            c >= 0,
            q >= 0,
    ;
    lemma_row_div(o * c + q, b, 128);
}

/// The two layouts fold alike: a stripe copy of a block-major witness has the
/// same partial folds.
pub proof fn lemma_layouts_fold_alike(
    stripes: Seq<u8>,
    z: Seq<F128>,
    k: int,
    eq: Seq<F128>,
    useful: int,
)
    requires
        k > 0,
        k % 128 == 0,
        0 <= useful <= k,
        forall|i: int, o: int|
            0 <= i < k && 0 <= o < eq.len() ==> #[trigger] stripe_bits(stripes, k, i)(o)
                == logical_bit(z, i + o * k),
    ensures
        is_stripe_fold(
            stripes,
            k,
            eq,
            useful,
            block_fold(z, k, eq.len(), weights(eq), useful),
        ),
{
    let out = block_fold(z, k, eq.len(), weights(eq), useful);
    assert forall|i: int| 0 <= i < k implies #[trigger] out[i] == if i < useful {
        stripe_fold(stripes, k, eq, i)
    } else {
        fzero()
    } by {
        let (s, b, w) = (stripe_bits(stripes, k, i), block_bits(z, k / 128, i), weights(eq));
        let f = |o: int| sel(b(o), w(o));
        let g = |o: int| sel(s(o), w(o));
        assert forall|o: int| 0 <= o < eq.len() implies #[trigger] f(o) == g(o) by {
            lemma_block_bit_is_logical(z, k, i, o);
            assert(stripe_bits(stripes, k, i)(o) == logical_bit(z, i + o * k));
        }
        lemma_sum_ext(eq.len(), f, g);
    }
}

/// A column without set bits folds to zero.
pub proof fn lemma_empty_column_folds_to_zero(
    n: nat,
    bit: spec_fn(int) -> bool,
    w: spec_fn(int) -> F128,
)
    requires
        forall|o: int| 0 <= o < n ==> !(#[trigger] bit(o)),
    ensures
        wfold(n, bit, w) == fzero(),
{
    lemma_sum_zero(n, |o: int| sel(bit(o), w(o)));
}

/// On an honestly padded stripe witness the padded fold is the dense fold.
pub proof fn lemma_padded_stripes_fold_densely(
    z: Seq<u8>,
    k: int,
    eq: Seq<F128>,
    useful: int,
    out: Seq<F128>,
)
    requires
        forall|i: int, o: int|
            useful <= i < k && 0 <= o < eq.len() ==> !(#[trigger] stripe_bits(z, k, i)(o)),
    ensures
        is_stripe_fold(z, k, eq, useful, out) <==> is_stripe_fold(z, k, eq, k, out),
{
    assert forall|i: int| useful <= i < k implies #[trigger] stripe_fold(z, k, eq, i)
        == fzero() by {
        lemma_empty_column_folds_to_zero(eq.len(), stripe_bits(z, k, i), weights(eq));
    }
    if is_stripe_fold(z, k, eq, useful, out) {
        assert forall|i: int| 0 <= i < k implies #[trigger] out[i] == stripe_fold(
            z,
            k,
            eq,
            i,
        ) by {}
    }
    if is_stripe_fold(z, k, eq, k, out) {
        assert forall|i: int| 0 <= i < k implies #[trigger] out[i] == if i < useful {
            stripe_fold(z, k, eq, i)
        } else {
            fzero()
        } by {}
    }
}

/// On an honestly padded block-major witness the padded fold is the dense fold.
pub proof fn lemma_padded_blocks_fold_densely(
    z: Seq<F128>,
    k: int,
    n_outer: nat,
    w: spec_fn(int) -> F128,
    useful: int,
)
    requires
        0 <= useful <= k,
        forall|i: int, o: int|
            useful <= i < k && 0 <= o < n_outer ==> !(#[trigger] block_bits(z, k / 128, i)(o)),
    ensures
        block_fold(z, k, n_outer, w, useful) == block_fold(z, k, n_outer, w, k),
{
    let (a, b) = (block_fold(z, k, n_outer, w, useful), block_fold(z, k, n_outer, w, k));
    assert forall|i: int| 0 <= i < k implies #[trigger] a[i] == b[i] by {
        if i >= useful {
            lemma_empty_column_folds_to_zero(n_outer, block_bits(z, k / 128, i), w);
        }
    }
    assert(a =~= b);
}

/// What a block-major fold is, column by column: the weighted sum of the rows whose bit
/// is set, zero past the useful columns, and with the top variable bound the mix of the
/// two halves. Nothing in it depends on how the work is cut.
pub proof fn lemma_block_fold_columns(
    z: Seq<F128>,
    k: int,
    n_outer: nat,
    w: spec_fn(int) -> F128,
    useful: int,
    r: F128,
    c: int,
)
    requires
        0 <= c < k,
        useful <= k,
        k % 2 == 0,
    ensures
        ({
            let full = block_fold(z, k, n_outer, w, useful);
            let bound = with_bind(full, Some(r));
            &&& with_bind(full, None) == full
            &&& full.len() == k && bound.len() == k / 2
            &&& full[c] == if c < useful {
                fsum(n_outer, |o: int| sel(block_bits(z, k / 128, c)(o), w(o)))
            } else {
                fzero()
            }
            &&& c < k / 2 ==> bound[c] == fadd(full[c], fmul(r, fadd(full[c + k / 2], full[c])))
        }),
{
    let full = block_fold(z, k, n_outer, w, useful);
    if c < k / 2 {
        lemma_add_comm(full[c + k / 2], full[c]);
    }
}

} // verus!
