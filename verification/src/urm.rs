//! The round-one split between GPU and CPU: who takes which high indices, how the GPU
//! share is cut into thread groups, and how its partial results are merged.

use crate::field::F128;
use crate::gpu::{
    can_bind, disable, metal_available, same_but_latch, share_in_bounds, wrap_input, GpuState,
    WrapPlan, ELL, G_MAX, G_MIN,
};
use crate::sums::fsum;
use vstd::prelude::*;

verus! {

/// Low outer indices per thread group.
pub const TILE: usize = 512;

/// Low outer indices that a thread group works on at a time.
pub const N_STREAMS: usize = 8;

/// Smallest instance that is split.
pub const GPU_MIN_M: usize = 26;

/// Whether the pipeline is wanted and not switched off.
pub open spec fn urm_on(g: GpuState) -> bool {
    g.urm_enabled && !g.no_gpu && !g.no_urm
}

/// Asks for the pipeline or does without it.
pub fn set_enabled(g: &mut GpuState, on: bool)
    ensures
        *final(g) == (GpuState { urm_enabled: on, ..*old(g) }),
{
    g.urm_enabled = on;
}

/// Whether the pipeline is wanted and not switched off.
pub fn enabled(g: &GpuState) -> (r: bool)
    ensures
        r == urm_on(*g),
{
    g.urm_enabled && !g.no_gpu && !g.no_urm
}

/// How many of `hi_size` high indices the GPU takes; zero keeps all on the CPU.
pub fn planned_g(g: &GpuState, hi_size: usize, m: usize) -> (r: usize)
    requires
        g.wf(),
    ensures
        share_in_bounds(r),
        r == if urm_on(*g) && m >= GPU_MIN_M && hi_size == 128 && !g.disabled && g.usable() {
            g.split_g
        } else {
            0
        },
{
    if !enabled(g) || m < GPU_MIN_M || hi_size != 128 || g.disabled {
        return 0;
    }
    if !metal_available(g) {
        return 0;
    }
    if g.split_g < hi_size {
        g.split_g
    } else {
        hi_size
    }
}

/// Whether the GPU is to be kept busy ahead of round one.
pub fn keepalive_should_run(g: &GpuState) -> (r: bool)
    ensures
        r == (urm_on(*g) && !g.disabled && !(g.calibrated && g.split_g == 0) && g.usable()),
{
    if !enabled(g) || g.disabled {
        return false;
    }
    if g.calibrated && g.split_g == 0 {
        return false;
    }
    metal_available(g)
}

/// The share that a measurement leads to: none where the GPU is far too slow, else the
/// balanced share within its bounds.
pub fn calibrated_share(too_slow: bool, balanced: usize) -> (r: usize)
    ensures
        share_in_bounds(r),
        r == if too_slow {
            0
        } else if balanced < G_MIN {
            G_MIN
        } else if balanced > G_MAX {
            G_MAX
        } else {
            balanced
        },
{
    if too_slow {
        0
    } else if balanced < G_MIN {
        G_MIN
    } else if balanced > G_MAX {
        G_MAX
    } else {
        balanced
    }
}

/// Takes the first measurement of a process: `share` is what it leads to, or `None`
/// where its rates are unusable. Later ones, and those of a run without a split, leave
/// the split as it is.
pub fn note_calibration(
    g: &mut GpuState,
    gpu_count: usize,
    cpu_count: usize,
    share: Option<usize>,
)
    requires
        old(g).wf(),
        share matches Some(s) ==> share_in_bounds(s),
    ensures
        final(g).wf(),
        *final(g) == (GpuState {
            calibrated: true,
            split_g: match share {
                Some(s) if !old(g).calibrated && gpu_count != 0 && cpu_count != 0 => s,
                _ => old(g).split_g,
            },
            ..*old(g)
        }),
{
    if g.calibrated {
        return;
    }
    g.calibrated = true;
    if gpu_count == 0 || cpu_count == 0 {
        return;
    }
    if let Some(s) = share {
        g.split_g = s;
    }
}

/// What one GPU share works on.
pub struct ShareArgs<'a> {
    pub a_packed: &'a [u8],
    pub b_packed: &'a [u8],
    pub c_packed: &'a [u8],
    pub inv_table: &'a [u8],
    pub eq_lo_scaled: &'a [F128],
    pub eq_hi: &'a [F128],
    pub b_med_counts: &'a [u8],
    pub within_outer_mask: usize,
    pub n_lo: usize,
    pub n_lo_and_inner: usize,
    /// The GPU takes the high indices below `g`.
    pub g: usize,
    /// Caps the low indices per thread group.
    pub tile_x_outer_lo: Option<usize>,
}

/// The kernel's parameters, in its 32-bit layout.
#[derive(Clone, Copy, Debug, PartialEq, Eq, Structural)]
pub struct Params {
    pub n_lo: u32,
    pub n_lo_and_inner: u32,
    pub big_lo_size: u32,
    pub n_iters: u32,
    pub n_tiles: u32,
    pub tile_size: u32,
    pub within_outer_mask: u32,
}

/// One dispatch: the grid, the parameters and the size of the output.
#[derive(Clone, Copy, Debug, PartialEq, Eq, Structural)]
pub struct Job {
    pub tile_size: usize,
    pub n_tiles: usize,
    pub n_iters: usize,
    pub n_slots: usize,
    pub out_bytes: usize,
    pub params: Params,
}

/// `n` rounded up to whole streams.
pub open spec fn to_streams(n: int) -> int {
    ((n + N_STREAMS - 1) / (N_STREAMS as int)) * N_STREAMS
}

/// The most low indices that a thread group takes.
pub open spec fn tile_cap(tile: Option<usize>) -> int {
    let want: int = match tile {
        Some(t) => t as int,
        None => TILE as int,
    };
    if want < N_STREAMS {
        N_STREAMS as int
    } else {
        to_streams(want)
    }
}

/// The low indices that a thread group takes out of `big`.
pub open spec fn tile_size(big: int, tile: Option<usize>) -> int {
    if big >= tile_cap(tile) {
        tile_cap(tile)
    } else {
        to_streams(big)
    }
}

/// The number of thread groups along the low indices.
pub open spec fn tile_count(big: int, tile: Option<usize>) -> int {
    if big >= tile_cap(tile) {
        (big + tile_cap(tile) - 1) / tile_cap(tile)
    } else {
        1
    }
}

/// The output of a share: three banks of lanes for each slot.
pub open spec fn share_bytes(big: int, tile: Option<usize>, g: int) -> int {
    tile_count(big, tile) * g * 3 * ELL * 16
}

/// Whether the sizes of a share fit the machine.
pub open spec fn share_fits(args: ShareArgs) -> bool {
    &&& tile_cap(args.tile_x_outer_lo) <= usize::MAX
    &&& args.eq_lo_scaled@.len() + 2 * N_STREAMS <= usize::MAX
    &&& share_bytes(args.eq_lo_scaled@.len() as int, args.tile_x_outer_lo, args.g as int)
        <= usize::MAX
}

fn round_to_streams(n: usize) -> (r: usize)
    requires
        to_streams(n as int) <= usize::MAX,
    ensures
        r == to_streams(n as int),
{
    let rest: usize = n % N_STREAMS;
    if rest == 0 {
        n
    } else {
        n + (N_STREAMS - rest)
    }
}

/// Whether there is a share and the pipeline can take it.
pub open spec fn share_wanted(state: GpuState, args: ShareArgs) -> bool {
    args.g != 0 && !state.disabled && urm_on(state) && state.usable()
}

/// Whether `j` is the dispatch of the share.
pub open spec fn is_share_job(args: ShareArgs, j: Job) -> bool {
    let big = args.eq_lo_scaled@.len() as int;
    let tile = args.tile_x_outer_lo;
    &&& j.tile_size == tile_size(big, tile)
    &&& j.n_tiles == tile_count(big, tile)
    &&& j.n_iters == j.tile_size / N_STREAMS
    &&& j.n_slots == j.n_tiles * args.g
    &&& j.out_bytes == share_bytes(big, tile, args.g as int)
    &&& j.params.n_lo == args.n_lo as u32
    &&& j.params.n_lo_and_inner == args.n_lo_and_inner as u32
    &&& j.params.big_lo_size == big as u32
    &&& j.params.n_iters == j.n_iters as u32
    &&& j.params.n_tiles == j.n_tiles as u32
    &&& j.params.tile_size == j.tile_size as u32
    &&& j.params.within_outer_mask == args.within_outer_mask as u32
}

/// Plans a GPU share, or leaves it to the CPU where there is nothing to do or the
/// pipeline cannot be used.
pub fn plan_share(state: &GpuState, args: &ShareArgs<'_>) -> (job: Option<Job>)
    requires
        share_fits(*args),
    ensures
        match job {
            Some(j) => share_wanted(*state, *args) && is_share_job(*args, j),
            None => !share_wanted(*state, *args),
        },
{
    if args.g == 0 || state.disabled || !enabled(state) {
        return None;
    }
    if !metal_available(state) {
        return None;
    }
    let big: usize = args.eq_lo_scaled.len();
    let want: usize = match args.tile_x_outer_lo {
        Some(t) => t,
        None => TILE,
    };
    let cap: usize = if want < N_STREAMS {
        N_STREAMS
    } else {
        round_to_streams(want)
    };
    let (tile, n_tiles): (usize, usize) = if big >= cap {
        (cap, crate::fold::div_up(big, cap))
    } else {
        (round_to_streams(big), 1)
    };
    let n_iters: usize = tile / N_STREAMS;
    proof {
        let (t, g) = (n_tiles as int, args.g as int);
        assert(t * g <= t * g * 3 * ELL * 16 && t * g >= 0) by (nonlinear_arith)
            requires
                t >= 0,
                g >= 0,
                ELL == 64,
        ;
    }
    let n_slots: usize = n_tiles * args.g;
    let out_bytes: usize = n_slots * 3 * ELL * 16;
    let params: Params = Params {
        n_lo: args.n_lo as u32,
        n_lo_and_inner: args.n_lo_and_inner as u32,
        big_lo_size: big as u32,
        n_iters: n_iters as u32,
        n_tiles: n_tiles as u32,
        tile_size: tile as u32,
        within_outer_mask: args.within_outer_mask as u32,
    };
    Some(Job { tile_size: tile, n_tiles, n_iters, n_slots, out_bytes, params })
}

/// Starts a GPU share. `addrs` are the addresses of the three witness buffers, and
/// `encoded` says whether the device took the dispatch. A witness buffer that can be bound
/// neither in place nor through a copy, or a device that refused, leaves the share to the
/// CPU and latches the fallback.
pub fn start_share(
    state: &mut GpuState,
    args: &ShareArgs<'_>,
    addrs: (usize, usize, usize),
    encoded: bool,
) -> (job: Option<Job>)
    requires
        share_fits(*args),
    ensures
        ({
            let wanted = share_wanted(*old(state), *args);
            let bindable = can_bind(addrs.0, args.a_packed@.len() as usize) && can_bind(
                addrs.1,
                args.b_packed@.len() as usize,
            ) && can_bind(addrs.2, args.c_packed@.len() as usize);
            &&& (job is Some) == (wanted && bindable && encoded)
            &&& job matches Some(j) ==> is_share_job(*args, j)
            &&& same_but_latch(*final(state), *old(state))
            &&& final(state).disabled == (old(state).disabled || (wanted && !(bindable && encoded)))
        }),
{
    match plan_share(state, args) {
        None => None,
        Some(j) => {
            let bindable: bool = wrap_input(addrs.0, args.a_packed.len()) != WrapPlan::Refuse
                && wrap_input(addrs.1, args.b_packed.len()) != WrapPlan::Refuse && wrap_input(
                addrs.2,
                args.c_packed.len(),
            ) != WrapPlan::Refuse;
            if bindable && encoded {
                Some(j)
            } else {
                disable(state);
                None
            }
        },
    }
}

/// The thread groups of a share cover all low indices: none is left out, and every group
/// starts inside.
pub proof fn lemma_tiles_cover(big: int, tile: Option<usize>)
    requires
        big > 0,
    ensures
        tile_size(big, tile) % (N_STREAMS as int) == 0,
        tile_count(big, tile) * tile_size(big, tile) >= big,
        (tile_count(big, tile) - 1) * tile_size(big, tile) < big,
{
    let c = tile_cap(tile);
    if big >= c {
        let x = big + c - 1;
        vstd::arithmetic::div_mod::lemma_fundamental_div_mod(x, c);
        let q = x / c;
        assert(q * c == c * q && (q - 1) * c == c * q - c) by (nonlinear_arith);
    } else {
        assert(0 * tile_size(big, tile) == 0);
    }
}

/// The merged partial results of a share.
pub struct ShareResult {
    pub res_ab: Vec<F128>,
    pub res_c0: Vec<F128>,
    pub res_c1: Vec<F128>,
}

/// Lane `lane` of bank `bank`, added up over the slots.
pub open spec fn lane_sum(out: Seq<F128>, n_slots: nat, bank: int, lane: int) -> F128 {
    fsum(n_slots, |s: int| out[s * (3 * ELL) + bank * ELL + lane])
}

fn merge_bank(out: &[F128], n_slots: usize, bank: usize) -> (r: Vec<F128>)
    requires
        bank < 3,
        out@.len() == n_slots * (3 * ELL),
    ensures
        r@.len() == ELL,
        forall|lane: int|
            0 <= lane < ELL ==> #[trigger] r@[lane] == lane_sum(
                out@,
                n_slots as nat,
                bank as int,
                lane,
            ),
{
    let len: usize = out.len();
    let mut r: Vec<F128> = Vec::with_capacity(ELL);
    let mut lane: usize = 0;
    while lane < ELL
        invariant
            lane <= ELL,
            bank < 3,
            len == out@.len(),
            out@.len() == n_slots * (3 * ELL),
            r@.len() == lane,
            forall|l: int|
                0 <= l < lane ==> #[trigger] r@[l] == lane_sum(
                    out@,
                    n_slots as nat,
                    bank as int,
                    l,
                ),
        decreases ELL - lane,
    {
        let mut acc: F128 = F128::zero();
        let mut s: usize = 0;
        while s < n_slots
            invariant
                s <= n_slots,
                lane < ELL,
                bank < 3,
                len == out@.len(),
                out@.len() == n_slots * (3 * ELL),
                acc == fsum(s as nat, |s: int| out@[s * (3 * ELL) + bank * ELL + lane]),
            decreases n_slots - s,
        {
            proof {
                crate::num::lemma_row_bound(
                    s as int,
                    bank * ELL + lane,
                    n_slots as int,
                    3 * ELL as int,
                );
            }
            acc = acc + out[s * (3 * ELL) + bank * ELL + lane];
            s = s + 1;
        }
        r.push(acc);
        lane = lane + 1;
    }
    r
}

impl Job {
    /// Takes the outcome of a dispatch: the merged output where it completed and can be
    /// read. Anything else latches the fallback to the CPU.
    pub fn finish(self, state: &mut GpuState, out: Option<&[F128]>) -> (r: Option<ShareResult>)
        requires
            out matches Some(o) ==> o@.len() == self.n_slots * (3 * ELL),
        ensures
            match out {
                Some(o) => {
                    &&& r matches Some(res) && res.res_ab@.len() == ELL && res.res_c0@.len() == ELL
                        && res.res_c1@.len() == ELL && forall|lane: int|
                        #![trigger res.res_ab@[lane]]
                        #![trigger res.res_c0@[lane]]
                        #![trigger res.res_c1@[lane]]
                        0 <= lane < ELL ==> res.res_ab@[lane] == lane_sum(
                            o@,
                            self.n_slots as nat,
                            0,
                            lane,
                        ) && res.res_c0@[lane] == lane_sum(o@, self.n_slots as nat, 1, lane)
                            && res.res_c1@[lane] == lane_sum(o@, self.n_slots as nat, 2, lane)
                    &&& *final(state) == *old(state)
                },
                None => r is None && final(state).disabled && same_but_latch(
                    *final(state),
                    *old(state),
                ),
            },
    {
        match out {
            Some(o) => {
                let res_ab: Vec<F128> = merge_bank(o, self.n_slots, 0);
                let res_c0: Vec<F128> = merge_bank(o, self.n_slots, 1);
                let res_c1: Vec<F128> = merge_bank(o, self.n_slots, 2);
                Some(ShareResult { res_ab, res_c0, res_c1 })
            },
            None => {
                disable(state);
                None
            },
        }
    }
}

} // verus!
