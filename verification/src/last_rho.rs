//! Starting the witness fold early: it is prepared before the outer point is known,
//! kicked when the last coordinate arrives, and waited for where it is needed.

use crate::block_major::{block_bits, block_shape, FoldOptions};
use crate::challenger::Challenger;
use crate::circuit::LincheckCircuit;
use crate::dispatch::{block_fold_at, fold_block_major_one_shot_with, FoldArch};
use crate::eq::eq_weight;
use crate::field::{fzero, F128};
use crate::lincheck::{after_honest, is_honest, prove_padded_inner, prover_input, witness_fold, witness_shape, LincheckClaim, LincheckProof, PackedZ, QuirkyPoint};
use crate::sums::{fsum, lemma_sum_ext, sel};
use vstd::arithmetic::power2::pow2;
use vstd::prelude::*;
use vstd::slice::{slice_subrange, slice_to_vec};

verus! {

/// A fold that waits for its outer point.
#[derive(Clone, Copy)]
pub struct LastRhoPrepared<'a> {
    pub z: &'a [F128],
    pub m: usize,
    pub k_log: usize,
    pub useful_bits: usize,
    pub inner_rest_len: usize,
}

impl<'a> LastRhoPrepared<'a> {
    /// The witness has the shape that the fold asks for.
    pub open spec fn wf(&self) -> bool {
        &&& block_shape(
            self.z@,
            self.m as int,
            self.k_log as int,
            pow2((self.m - self.k_log) as nat),
        )
        &&& self.useful_bits <= pow2(self.k_log as nat)
    }

    /// Whether a list of challenges ends with a whole outer point.
    pub open spec fn complete(&self, mlv: Seq<F128>) -> bool {
        mlv.len() == self.inner_rest_len + (self.m - self.k_log)
    }

    /// Whether a list of challenges can be handed in: one that is too short asks nothing
    /// of the witness, a complete one asks for its shape.
    pub open spec fn accepts(&self, mlv: Seq<F128>) -> bool {
        self.complete(mlv) ==> self.wf()
    }

    /// The fold at the outer point that ends `mlv`.
    pub open spec fn fold_at(&self, mlv: Seq<F128>) -> Seq<F128> {
        block_fold_at(
            self.z@,
            pow2(self.k_log as nat) as int,
            mlv.skip(self.inner_rest_len as int),
            self.useful_bits as int,
        )
    }
}

/// A fold that can run: the witness and its outer point.
pub struct LastRhoJob<'a> {
    pub prepared: LastRhoPrepared<'a>,
    pub x_outer: Vec<F128>,
}

impl<'a> LastRhoJob<'a> {
    pub open spec fn wf(&self) -> bool {
        &&& self.prepared.wf()
        &&& self.x_outer@.len() == self.prepared.m - self.prepared.k_log
    }

    /// What the job computes.
    pub open spec fn fold(&self) -> Seq<F128> {
        block_fold_at(
            self.prepared.z@,
            pow2(self.prepared.k_log as nat) as int,
            self.x_outer@,
            self.prepared.useful_bits as int,
        )
    }

    /// Runs the fold as `opts` asks for. The witness is only read.
    pub fn run(&self, opts: FoldOptions) -> (out: Vec<F128>)
        requires
            self.wf(),
        ensures
            out@ == self.fold(),
    {
        fold_block_major_one_shot_with(
            self.prepared.z,
            self.prepared.m,
            self.prepared.k_log,
            self.prepared.useful_bits,
            self.x_outer.as_slice(),
            None,
            opts,
        )
    }

    /// Leaves the result of a run with the guard, where the prover takes it.
    pub fn hand_in(&self, guard: &mut LastRhoZFoldGuard<'a>, z_vec: Vec<F128>)
        requires
            z_vec@ == self.fold(),
        ensures
            final(guard).slot == LastRhoSlot::<'a>::Running(z_vec),
    {
        guard.slot = LastRhoSlot::Running(z_vec);
    }
}

/// Where an early fold stands.
pub enum LastRhoSlot<'a> {
    Empty,
    Prepared(LastRhoPrepared<'a>),
    Running(Vec<F128>),
}

/// Holds an early fold, and with it the borrow of the witness.
pub struct LastRhoZFoldGuard<'a> {
    pub slot: LastRhoSlot<'a>,
}

impl<'a> LastRhoZFoldGuard<'a> {
    /// Whether a list of challenges can be handed in.
    pub open spec fn accepts(&self, mlv: Seq<F128>) -> bool {
        self.slot matches LastRhoSlot::Prepared(p) ==> p.accepts(mlv)
    }

    /// A guard with nothing prepared.
    pub fn empty() -> (g: Self)
        ensures
            g.slot == LastRhoSlot::<'a>::Empty,
    {
        LastRhoZFoldGuard { slot: LastRhoSlot::Empty }
    }
}

/// What a kick makes of the slot: a prepared fold is run once `mlv` is complete, and
/// anything else stays as it is.
pub open spec fn kicked(before: LastRhoSlot<'_>, mlv: Seq<F128>, after: LastRhoSlot<'_>) -> bool {
    match before {
        LastRhoSlot::Prepared(p) => if p.complete(mlv) {
            after matches LastRhoSlot::Running(v) && v@ == p.fold_at(mlv)
        } else {
            after == before
        },
        _ => after == before,
    }
}

/// What a wait gives: the result of a kicked fold, or nothing.
pub open spec fn waited(before: LastRhoSlot<'_>, out: Option<Vec<F128>>) -> bool {
    match before {
        LastRhoSlot::Running(v) => out == Some(v),
        _ => out is None,
    }
}

/// Registers a witness for an early fold. Nothing is asked of the values before a
/// complete kick.
pub fn prepare_last_rho_z_fold<'a>(
    z: &'a [F128],
    m: usize,
    k_log: usize,
    useful_bits: usize,
    inner_rest_len: usize,
) -> (g: LastRhoZFoldGuard<'a>)
    ensures
        g.slot == LastRhoSlot::Prepared(
            (LastRhoPrepared { z, m, k_log, useful_bits, inner_rest_len }),
        ),
{
    LastRhoZFoldGuard {
        slot: LastRhoSlot::Prepared(
            LastRhoPrepared { z, m, k_log, useful_bits, inner_rest_len },
        ),
    }
}

/// Takes the prepared fold out as a job once `mlv` ends with a whole outer point. With
/// nothing prepared, or with `mlv` incomplete, nothing changes.
pub fn take_last_rho_job<'a>(guard: &mut LastRhoZFoldGuard<'a>, mlv: &[F128]) -> (job: Option<
    LastRhoJob<'a>,
>)
    requires
        old(guard).accepts(mlv@),
    ensures
        match old(guard).slot {
            LastRhoSlot::Prepared(p) => if p.complete(mlv@) {
                &&& job matches Some(j) && j.wf() && j.prepared == p && j.x_outer@ == mlv@.skip(
                    p.inner_rest_len as int,
                )
                &&& final(guard).slot == LastRhoSlot::<'a>::Empty
            } else {
                job is None && *final(guard) == *old(guard)
            },
            _ => job is None && *final(guard) == *old(guard),
        },
{
    let ready: Option<LastRhoPrepared<'a>> = match &guard.slot {
        LastRhoSlot::Prepared(p) => {
            let have: u128 = mlv.len() as u128 + p.k_log as u128;
            let need: u128 = p.inner_rest_len as u128 + p.m as u128;
            if have == need {
                Some(*p)
            } else {
                None
            }
        },
        _ => None,
    };
    match ready {
        Some(p) => {
            let tail: &[F128] = slice_subrange(mlv, p.inner_rest_len, mlv.len());
            let x_outer: Vec<F128> = slice_to_vec(tail);
            proof {
                assert(mlv@.subrange(p.inner_rest_len as int, mlv@.len() as int) =~= mlv@.skip(
                    p.inner_rest_len as int,
                ));
            }
            guard.slot = LastRhoSlot::Empty;
            Some(LastRhoJob { prepared: p, x_outer })
        },
        None => None,
    }
}

/// Runs the prepared fold once `mlv` ends with a whole outer point, and keeps the
/// result. A kick that comes too early, twice or with nothing prepared does nothing.
pub fn kick_last_rho_z_fold<'a>(guard: &mut LastRhoZFoldGuard<'a>, mlv: &[F128])
    requires
        old(guard).accepts(mlv@),
    ensures
        kicked(old(guard).slot, mlv@, final(guard).slot),
{
    match take_last_rho_job(guard, mlv) {
        Some(job) => {
            let z_vec: Vec<F128> = job.run(FoldOptions::portable());
            job.hand_in(guard, z_vec);
        },
        None => {},
    }
}

/// Takes the result of a kicked fold, or `None` where none was kicked. Either way the
/// guard is empty afterwards.
pub fn wait_last_rho_z_fold<'a>(guard: &mut LastRhoZFoldGuard<'a>) -> (out: Option<Vec<F128>>)
    ensures
        final(guard).slot == LastRhoSlot::<'a>::Empty,
        waited(old(guard).slot, out),
{
    let mut slot: LastRhoSlot<'a> = LastRhoSlot::Empty;
    std::mem::swap(&mut slot, &mut guard.slot);
    match slot {
        LastRhoSlot::Running(v) => Some(v),
        _ => None,
    }
}

/// A fold that was prepared and not completely kicked never starts: the kick changes
/// nothing, whatever the values were, and the next wait gives nothing.
pub proof fn lemma_incomplete_kick_does_nothing(
    p: LastRhoPrepared<'_>,
    mlv: Seq<F128>,
    after: LastRhoSlot<'_>,
    out: Option<Vec<F128>>,
)
    requires
        !p.complete(mlv),
        kicked(LastRhoSlot::Prepared(p), mlv, after),
        waited(after, out),
    ensures
        after == LastRhoSlot::Prepared(p),
        out is None,
{
}

/// Where nothing was prepared, no kick starts anything and a wait gives nothing.
pub proof fn lemma_nothing_prepared(
    mlv: Seq<F128>,
    after: LastRhoSlot<'_>,
    out: Option<Vec<F128>>,
)
    requires
        kicked(LastRhoSlot::Empty, mlv, after),
        waited(after, out),
    ensures
        after is Empty,
        out is None,
{
}

/// A complete kick and a wait give the fold at the outer point, and a second kick in
/// between changes nothing.
pub proof fn lemma_kick_then_wait(
    p: LastRhoPrepared<'_>,
    mlv: Seq<F128>,
    again: Seq<F128>,
    first: LastRhoSlot<'_>,
    second: LastRhoSlot<'_>,
    out: Option<Vec<F128>>,
)
    requires
        p.complete(mlv),
        kicked(LastRhoSlot::Prepared(p), mlv, first),
        kicked(first, again, second),
        waited(second, out),
    ensures
        second == first,
        out matches Some(v) && v@ == p.fold_at(mlv),
{
}

/// An early fold is the prover's own. Prepare a witness, kick once the challenges are the
/// inner coordinates followed by the whole outer point, and wait: what comes back is the
/// witness folded at that outer point, which is what the prover folds for itself.
pub proof fn lemma_early_fold_is_the_provers(
    z: &[F128],
    m: usize,
    k_log: usize,
    useful_bits: usize,
    inner: Seq<F128>,
    outer: Seq<F128>,
    inner_rest_len: usize,
    after: LastRhoSlot<'_>,
    out: Option<Vec<F128>>,
    arch: FoldArch,
)
    requires
        inner.len() == inner_rest_len,
        outer.len() + k_log == m,
        ({
            let p = LastRhoPrepared { z, m, k_log, useful_bits, inner_rest_len };
            kicked(LastRhoSlot::Prepared(p), inner + outer, after)
        }),
        waited(after, out),
    ensures
        out matches Some(v) && v@ == witness_fold(
            PackedZ::BlockMajor(z),
            m as int,
            k_log as nat,
            useful_bits as int,
            outer,
            arch,
        ),
        out matches Some(v) && v@.len() == pow2(k_log as nat) && forall|c: int|
            0 <= c < pow2(k_log as nat) ==> #[trigger] v@[c] == if c < useful_bits {
                fsum(
                    pow2(outer.len()),
                    |o: int|
                        sel(
                            block_bits(z@, pow2(k_log as nat) as int / 128, c)(o),
                            eq_weight(outer, o),
                        ),
                )
            } else {
                fzero()
            },
{
    assert((inner + outer).skip(inner.len() as int) =~= outer);
    assert((inner + outer).len() == inner_rest_len + (m - k_log));
    let v = out->Some_0;
    assert forall|c: int| 0 <= c < pow2(k_log as nat) && c < useful_bits implies #[trigger] v@[c]
        == fsum(
        pow2(outer.len()),
        |o: int|
            sel(block_bits(z@, pow2(k_log as nat) as int / 128, c)(o), eq_weight(outer, o)),
    ) by {
        lemma_sum_ext(
            pow2(outer.len()),
            |o: int|
                sel(
                    block_bits(z@, pow2(k_log as nat) as int / 128, c)(o),
                    (|o: int| eq_weight(outer, o))(o),
                ),
            |o: int|
                sel(block_bits(z@, pow2(k_log as nat) as int / 128, c)(o), eq_weight(outer, o)),
        );
    }
}

/// A kick takes a fold up exactly where the challenges are the inner coordinates and one
/// for each outer variable.
pub proof fn lemma_complete_is_whole_point(
    p: LastRhoPrepared<'_>,
    inner: Seq<F128>,
    outer: Seq<F128>,
)
    requires
        inner.len() == p.inner_rest_len,
    ensures
        p.complete(inner + outer) <==> outer.len() + p.k_log == p.m,
{
}

/// Proves a block-major instance with the fold that the guard holds, or with a fresh
/// one where none was kicked.
pub fn prove_padded_capture_z_vec_after_kick<Ch: Challenger, C: LincheckCircuit>(
    guard: &mut LastRhoZFoldGuard<'_>,
    z_packed: &[F128],
    m: usize,
    k_log: usize,
    k_skip: usize,
    useful_bits: usize,
    circuit: &C,
    x_ab: &QuirkyPoint,
    challenger: &mut Ch,
) -> (out: (LincheckProof, LincheckClaim, Vec<F128>))
    requires
        witness_shape(PackedZ::BlockMajor(z_packed), m as int, k_log as int),
        prover_input(
            m as int,
            k_log as int,
            k_skip as int,
            useful_bits as int,
            circuit,
            *x_ab,
        ),
        old(guard).slot matches LastRhoSlot::Running(v) ==> v@ == block_fold_at(
            z_packed@,
            pow2(k_log as nat) as int,
            x_ab.x_outer@,
            useful_bits as int,
        ),
    ensures
        ({
            let z_vec = block_fold_at(
                z_packed@,
                pow2(k_log as nat) as int,
                x_ab.x_outer@,
                useful_bits as int,
            );
            let s = old(challenger).state();
            &&& is_honest::<Ch, C>(s, circuit, *x_ab, k_skip as nat, z_vec, out.0, out.1)
            &&& final(challenger).state() == after_honest::<Ch, C>(
                s,
                circuit,
                *x_ab,
                k_skip as nat,
                z_vec,
            )
            &&& out.2@ == z_vec
        }),
        final(guard).slot is Empty,
{
    let kicked: Option<Vec<F128>> = wait_last_rho_z_fold(guard);
    let (proof, claim, captured) = prove_padded_inner(
        PackedZ::BlockMajor(z_packed),
        m,
        k_log,
        k_skip,
        useful_bits,
        circuit,
        x_ab,
        true,
        kicked,
        FoldArch::Portable,
        FoldOptions::portable(),
        challenger,
    );
    (proof, claim, captured.unwrap())
}

} // verus!
