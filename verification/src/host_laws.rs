//! What the decisions about the machine come to: which buffers and shares the GPU takes,
//! which nodes a Merkle session covers, how the spin threads and the clock behave, and how
//! lists of CPUs are read.

use crate::challenger::search_hashes;
use crate::cpu_keepalive::{churn_step, churned, exited, joining, stopped, Joining, Keepalive, MAX_KEEPALIVE_NS, SPIN_STEPS};
use crate::fs_count::FsCount;
use crate::gaptime::since;
use crate::gpu::{can_bind, page_shaped, same_but_latch, share_in_bounds, GpuState, INITIAL_G, MAX_COPY_BYTES, WRAP_CACHE_MIN_BYTES};
use crate::hash::HashKind;
use crate::merkle::{group_count, level_nodes, levels_from, merkle_on, session_shape};
use crate::pow::{hashes_up_to, BLAKE3_POW_BATCH};
use crate::sums::chunk_count;
use crate::topology::{after_dash, all_in_mask, all_pairs, core_count, cpu_dir, cut, digits_value, groups_upto, highest_from, mask_has, nat_cpus_upto, number, pinned_shape, pool_plan, range_of, ranges_from, split_shape, HostCores, PoolPlan, HUGE_PAGE, SMALL_PAGE};
use crate::urm::{is_share_job, lane_sum, share_wanted, tile_cap, urm_on, Job, ShareArgs, GPU_MIN_M};
use crate::field::{fadd, fzero, F128};
use vstd::arithmetic::power::pow;
use vstd::prelude::*;

verus! {

/// Which buffers are bound: in place those of whole pages that start on a page, through a
/// copy those of at most 32 MiB.
pub proof fn lemma_bindings(addr: usize, len: usize, g: usize)
    ensures
        page_shaped(addr, len) <==> addr % 16384 == 0 && len % 16384 == 0 && len >= 16384,
        can_bind(addr, len) <==> page_shaped(addr, len) || len <= 32 * 1024 * 1024,
        share_in_bounds(g) <==> g == 0 || 16 <= g <= 112,
{
}

/// The limits: at most 24 wrapped buffers are kept, each of 64 MiB or more and so too large
/// to be copied, the first share is half of 128 high indices, problems of fewer than 26
/// variables stay on the CPU, and a huge page is 512 pages of 4 KiB.
pub proof fn lemma_limits(g: GpuState, len: usize)
    ensures
        g.wf() ==> g.wrap_cache@.len() <= 24,
        len >= WRAP_CACHE_MIN_BYTES <==> len >= 64 * 1024 * 1024,
        len >= WRAP_CACHE_MIN_BYTES ==> len > MAX_COPY_BYTES,
        INITIAL_G == 64 && share_in_bounds(INITIAL_G),
        GPU_MIN_M == 26,
        SMALL_PAGE == 4096 && HUGE_PAGE == 512 * SMALL_PAGE,
{
}

/// What the GPU is used for: nothing where it is switched off or was not found, and each
/// pipeline only where it is wanted and not switched off. The failure latch is all that a
/// failure changes.
pub proof fn lemma_pipelines(g: GpuState, h: GpuState, args: ShareArgs)
    ensures
        g.usable() <==> g.has_context && !g.no_gpu,
        urm_on(g) <==> g.urm_enabled && !g.no_urm && !g.no_gpu,
        merkle_on(g) <==> g.has_context && !g.no_gpu && g.merkle_enabled && !g.no_merkle
            && !g.disabled,
        share_wanted(g, args) <==> args.g > 0 && g.has_context && !g.no_gpu && g.urm_enabled
            && !g.no_urm && !g.disabled,
        same_but_latch(g, h) ==> g.split_g == h.split_g && g.wrap_cache == h.wrap_cache
            && g.has_context == h.has_context && g.no_gpu == h.no_gpu && g.no_urm == h.no_urm
            && g.no_merkle == h.no_merkle && g.urm_enabled == h.urm_enabled && g.merkle_enabled
            == h.merkle_enabled && g.calibrated == h.calibrated,
{
}

/// How a share is cut: thread groups of whole streams of eight, as large as was asked for,
/// 512 where nothing was, that cover the low indices, each with one slot of three banks for
/// every high index.
pub proof fn lemma_share_job(args: ShareArgs, j: Job)
    requires
        is_share_job(args, j),
    ensures
        ({
            let big = args.eq_lo_scaled@.len() as int;
            let want: int = match args.tile_x_outer_lo {
                Some(t) => if t < 8 {
                    8
                } else {
                    t as int
                },
                None => 512,
            };
            &&& tile_cap(args.tile_x_outer_lo) % 8 == 0
            &&& want <= tile_cap(args.tile_x_outer_lo) < want + 8
            &&& j.tile_size % 8 == 0 && j.n_iters * 8 == j.tile_size
            &&& big >= tile_cap(args.tile_x_outer_lo) ==> j.tile_size == tile_cap(
                args.tile_x_outer_lo,
            ) && (j.n_tiles - 1) * j.tile_size < big <= j.n_tiles * j.tile_size
            &&& big < tile_cap(args.tile_x_outer_lo) ==> j.n_tiles == 1 && big <= j.tile_size < big
                + 8
            &&& j.n_slots == j.n_tiles * args.g
            &&& j.out_bytes == j.n_slots * 3072
            &&& j.params.n_lo == args.n_lo as u32
            &&& j.params.n_lo_and_inner == args.n_lo_and_inner as u32
            &&& j.params.big_lo_size == big as u32
            &&& j.params.n_iters == j.n_iters as u32
            &&& j.params.n_tiles == j.n_tiles as u32
            &&& j.params.tile_size == j.tile_size as u32
            &&& j.params.within_outer_mask == args.within_outer_mask as u32
        }),
{
    let big = args.eq_lo_scaled@.len() as int;
    let c = tile_cap(args.tile_x_outer_lo);
    if big >= c {
        let x = big + c - 1;
        vstd::arithmetic::div_mod::lemma_fundamental_div_mod(x, c);
        vstd::arithmetic::div_mod::lemma_mod_bound(x, c);
        let q = x / c;
        assert(q * c == c * q && (q - 1) * c == c * q - c) by (nonlinear_arith);
    }
    let (t, g) = (j.n_tiles as int, args.g as int);
    assert(t * g * 3 * 64 * 16 == (t * g) * 3072) by (nonlinear_arith);
}

/// A merged lane grows by one partial result for each further slot: three banks of 64 lanes
/// lie behind one another in a slot.
pub proof fn lemma_lane_grows(out: Seq<F128>, n: nat, bank: int, lane: int)
    ensures
        lane_sum(out, 0, bank, lane) == fzero(),
        lane_sum(out, n + 1, bank, lane) == fadd(
            lane_sum(out, n, bank, lane),
            out[n as int * 192 + bank * 64 + lane],
        ),
{
}

/// Which sessions the pipelines take: whole leaves of one to sixteen blocks, a power of two
/// of them where parents are wanted, and a tree region of whole pages that holds every node
/// that is written.
pub proof fn lemma_sessions(
    data_len: int,
    leaf_size: int,
    tree_addr: int,
    tree_len: int,
    stop_nodes: int,
)
    requires
        data_len >= 0,
        leaf_size >= 0,
        tree_len >= 0,
    ensures
        ({
            let n = data_len / leaf_size;
            let stop: int = if stop_nodes < 1 {
                1
            } else {
                stop_nodes
            };
            let needed: int = if 2 * stop <= n {
                n + level_nodes((n / 2) as nat, stop as nat)
            } else {
                n
            };
            session_shape(data_len, leaf_size, tree_addr, tree_len, stop_nodes) <==> {
                &&& leaf_size % 64 == 0 && 64 <= leaf_size <= 1024
                &&& data_len % leaf_size == 0 && data_len > 0
                &&& 2 * stop <= n ==> exists|e: nat| n == #[trigger] vstd::arithmetic::power2::pow2(e)
                &&& tree_addr % 16384 == 0
                &&& needed * 32 <= ((tree_len * 32) / 16384) * 16384
            }
        }),
{
    let n = data_len / leaf_size;
    if leaf_size > 0 {
        vstd::arithmetic::div_mod::lemma_div_pos_is_pos(data_len, leaf_size);
        crate::merkle::lemma_is_pow2(n as nat);
    }
}

/// The levels of a session: one level while it has at least `stop` nodes, each half as wide
/// as the one before, with a group of 256 threads for each 256 nodes begun.
pub proof fn lemma_levels(src: nat, dst: nat, count: nat, stop: nat)
    ensures
        ({
            let l = levels_from(src, dst, count, stop);
            if count >= 1 && count >= stop {
                &&& l.len() > 0 && l[0] == (src, dst, count, group_count(count))
                &&& l.skip(1) == levels_from(dst, dst + count, count / 2, stop)
                &&& level_nodes(count, stop) == count + level_nodes(count / 2, stop)
            } else {
                l.len() == 0 && level_nodes(count, stop) == 0
            }
        }),
        group_count(count) * 256 >= count,
        group_count(count) * 256 < count + 256,
{
    let l = levels_from(src, dst, count, stop);
    if count >= 1 && count >= stop {
        assert(l.skip(1) =~= levels_from(dst, dst + count, count / 2, stop));
    }
}

/// Spin threads: stopping clears the flag alone, a thread that finishes is counted out
/// alone, a wait is over exactly where none is live, and the churn goes on where it was
/// left.
pub proof fn lemma_spin_threads(k: Keepalive, x: u64, a: nat, b: nat)
    ensures
        !stopped(k).running && stopped(k).live == k.live,
        k.live > 0 ==> exited(k).live == k.live - 1 && exited(k).running == k.running,
        joining(k) == Joining::Quiet <==> k.live == 0,
        joining(k) == Joining::Waiting <==> k.live != 0,
        MAX_KEEPALIVE_NS == 2_000_000_000,
        SPIN_STEPS == 64,
        churned(x, 0) == x,
        churned(x, a + b) == churned(churned(x, a), b),
        churned(x, 1) == churn_step(x),
        ({
            let y = x.wrapping_mul(0x2545_F491_4F6C_DD1D).wrapping_add(0x9E37_79B9_7F4A_7C15);
            churn_step(x) == y ^ (y >> 29)
        }),
    decreases b,
{
    reveal_with_fuel(churned, 2);
    if b > 0 {
        lemma_spin_threads(k, x, a, (b - 1) as nat);
    }
}

/// A gap is the time between two readings, and none where the clock ran backwards.
pub proof fn lemma_gaps(a: u64, b: u64)
    ensures
        a >= b ==> since(a, b) + b == a,
        a < b ==> since(a, b) == 0,
{
}

/// Counters move by what is counted, and wrap.
pub proof fn lemma_counters_move(c: FsCount, squeezes: nat, hashes: nat)
    ensures
        c.plus(squeezes as int, hashes as int).squeezes == (c.squeezes + squeezes)
            % 0x1_0000_0000_0000_0000,
        c.plus(squeezes as int, hashes as int).pow_sha256 == (c.pow_sha256 + hashes)
            % 0x1_0000_0000_0000_0000,
{
}

/// A search counts the nonces up to the one that it found: each one under SHA-256, in
/// batches of 32 under BLAKE3, where the last batch is cut short; all there are where it
/// found none, and nothing without a difficulty.
pub proof fn lemma_search_counts(bits: u32, nonce: u64, found: Option<u64>)
    ensures
        search_hashes(HashKind::Sha256, 0, found) == 0,
        search_hashes(HashKind::Blake3, 0, found) == 0,
        bits > 0 ==> search_hashes(HashKind::Sha256, bits, None) == u64::MAX,
        bits > 0 ==> search_hashes(HashKind::Blake3, bits, None) == u64::MAX,
        bits > 0 ==> search_hashes(HashKind::Sha256, bits, Some(nonce)) == hashes_up_to(
            HashKind::Sha256,
            nonce,
        ),
        bits > 0 ==> search_hashes(HashKind::Blake3, bits, Some(nonce)) == hashes_up_to(
            HashKind::Blake3,
            nonce,
        ),
        nonce < u64::MAX ==> hashes_up_to(HashKind::Sha256, nonce) == nonce + 1,
        nonce == u64::MAX ==> hashes_up_to(HashKind::Sha256, nonce) == u64::MAX,
        nonce < u64::MAX - 31 ==> hashes_up_to(HashKind::Blake3, nonce) % 32 == 0 && nonce
            < hashes_up_to(HashKind::Blake3, nonce) <= nonce + 32,
        nonce >= u64::MAX - 31 ==> hashes_up_to(HashKind::Blake3, nonce) == u64::MAX,
{
    let q = nonce / 32u64;
    assert((q + 1) * BLAKE3_POW_BATCH == 32 * q + 32);
}

/// A separator is found at its first place.
pub proof fn lemma_first_separator(s: Seq<u8>, sep: u8, from: int)
    requires
        0 <= from <= s.len(),
    ensures
        from <= cut(s, sep, from) <= s.len(),
        forall|i: int| from <= i < cut(s, sep, from) ==> #[trigger] s[i] != sep,
        cut(s, sep, from) < s.len() ==> s[cut(s, sep, from)] == sep,
    decreases s.len() - from,
{
    if from < s.len() && s[from] != sep {
        lemma_first_separator(s, sep, from + 1);
    }
}

/// Digits are read by place.
pub proof fn lemma_digits_by_place(a: Seq<u8>, b: Seq<u8>, c: u8)
    requires
        48 <= c <= 57,
        forall|i: int| 0 <= i < b.len() ==> 48 <= #[trigger] b[i] <= 57,
    ensures
        digits_value(seq![c]) == c - 48,
        digits_value(a + b) == digits_value(a) * pow(10, b.len()) + digits_value(b),
    decreases b.len(),
{
    reveal_with_fuel(digits_value, 2);
    assert(seq![c].drop_last() =~= Seq::<u8>::empty());
    if b.len() == 0 {
        assert(a + b =~= a);
        vstd::arithmetic::power::lemma_pow0(10);
    } else {
        let t = b.drop_last();
        assert((a + b).drop_last() =~= a + t);
        lemma_digits_by_place(a, t, c);
        vstd::arithmetic::power::lemma_pow1(10);
        vstd::arithmetic::power::lemma_pow_adds(10, t.len(), 1);
        let (x, p) = (digits_value(a) as int, pow(10, t.len()));
        assert(pow(10, b.len()) == p * 10);
        assert(10 * (x * p) == x * (p * 10)) by (nonlinear_arith);
    }
}

/// A number is digits, with at most one plus sign in front, of a value that fits.
pub proof fn lemma_numbers(s: Seq<u8>)
    ensures
        ({
            let digits = s.len() > 0 && forall|i: int| 0 <= i < s.len() ==> 48 <= #[trigger] s[i] <= 57;
            &&& digits && digits_value(s) <= usize::MAX ==> number(s) == Some(digits_value(s))
                && number(seq![43u8] + s) == Some(digits_value(s))
            &&& digits && digits_value(s) > usize::MAX ==> number(s) is None && number(
                seq![43u8] + s,
            ) is None
            &&& !digits ==> number(seq![43u8] + s) is None
            &&& !digits && (s.len() == 0 || s[0] != 43) ==> number(s) is None
        }),
{
    let d = seq![43u8] + s;
    assert(d.skip(1) =~= s);
}

/// An entry of a list is a single number or two with a dash between them.
pub proof fn lemma_ranges_read(a: Seq<u8>, b: Seq<u8>)
    requires
        forall|i: int| 0 <= i < a.len() ==> #[trigger] a[i] != 45,
    ensures
        range_of(a) == match number(a) {
            Some(n) => Some((n, n)),
            None => None::<(nat, nat)>,
        },
        range_of(a + seq![45u8] + b) == match (number(a), number(b)) {
            (Some(x), Some(y)) => Some((x, y)),
            _ => None::<(nat, nat)>,
        },
        after_dash(a) == a,
        after_dash(a + seq![45u8] + b) == after_dash(b),
{
    lemma_first_separator(a, 45, 0);
    assert(cut(a, 45, 0) == a.len()) by {
        if cut(a, 45, 0) < a.len() {
            assert(a[cut(a, 45, 0)] == 45);
        }
    }
    let s = a + seq![45u8] + b;
    lemma_first_separator(s, 45, 0);
    let c = cut(s, 45, 0);
    assert(s[a.len() as int] == 45);
    assert(c == a.len()) by {
        if c < a.len() {
            assert(s[c] == a[c]);
        } else if c > a.len() {
            assert(s[a.len() as int] != 45);
        }
    }
    assert(s.subrange(0, c) =~= a);
    assert(s.subrange(c + 1, s.len() as int) =~= b);
}

proof fn lemma_cut_shift(a: Seq<u8>, q: Seq<u8>, sep: u8, j: int)
    requires
        0 <= j <= q.len(),
    ensures
        cut(a + q, sep, a.len() + j) == a.len() + cut(q, sep, j),
    decreases q.len() - j,
{
    if j < q.len() {
        assert((a + q)[a.len() + j] == q[j]);
        if q[j] != sep {
            lemma_cut_shift(a, q, sep, j + 1);
        }
    }
}

proof fn lemma_ranges_shift(a: Seq<u8>, q: Seq<u8>, j: int)
    requires
        0 <= j <= q.len(),
    ensures
        ranges_from(a + q, a.len() + j) == ranges_from(q, j),
        highest_from(a + q, a.len() + j) == highest_from(q, j),
    decreases q.len() - j,
{
    let c = cut(q, 44, j);
    lemma_cut_shift(a, q, 44, j);
    lemma_first_separator(q, 44, j);
    assert((a + q).subrange(a.len() + j, a.len() + c) =~= q.subrange(j, c));
    if c < q.len() {
        lemma_ranges_shift(a, q, c + 1);
    }
}

/// A list is read entry by entry: an entry, and behind each comma another list.
pub proof fn lemma_lists_read(p: Seq<u8>, q: Seq<u8>)
    requires
        forall|i: int| 0 <= i < p.len() ==> #[trigger] p[i] != 44,
    ensures
        ranges_from(p, 0) == match range_of(p) {
            Some(r) => Some(seq![r]),
            None => None::<Seq<(nat, nat)>>,
        },
        ranges_from(p + seq![44u8] + q, 0) == match (range_of(p), ranges_from(q, 0)) {
            (Some(r), Some(t)) => Some(seq![r] + t),
            _ => None::<Seq<(nat, nat)>>,
        },
        highest_from(p, 0) == match number(after_dash(p)) {
            Some(n) => n,
            None => 0,
        },
        ({
            let (x, y) = (highest_from(p, 0), highest_from(q, 0));
            highest_from(p + seq![44u8] + q, 0) == if x >= y {
                x
            } else {
                y
            }
        }),
{
    lemma_first_separator(p, 44, 0);
    assert(cut(p, 44, 0) == p.len()) by {
        if cut(p, 44, 0) < p.len() {
            assert(p[cut(p, 44, 0)] == 44);
        }
    }
    assert(p.subrange(0, p.len() as int) =~= p);
    let head = p + seq![44u8];
    let s = head + q;
    lemma_first_separator(s, 44, 0);
    let c = cut(s, 44, 0);
    assert(s[p.len() as int] == 44);
    assert(c == p.len()) by {
        if c < p.len() {
            assert(s[c] == p[c]);
        } else if c > p.len() {
            assert(s[p.len() as int] != 44);
        }
    }
    assert(s.subrange(0, c) =~= p);
    lemma_ranges_shift(head, q, 0);
}

/// The CPUs of a group are those below `n` that a range covers, in ascending order.
pub proof fn lemma_group_members(ranges: Seq<(nat, nat)>, n: nat)
    requires
        n <= usize::MAX,
    ensures
        forall|i: int|
            0 <= i < nat_cpus_upto(ranges, n).len() ==> (#[trigger] nat_cpus_upto(ranges, n)[i]) < n,
        forall|i: int, j: int|
            0 <= i < j < nat_cpus_upto(ranges, n).len() ==> nat_cpus_upto(ranges, n)[i]
                < nat_cpus_upto(ranges, n)[j],
        forall|c: usize|
            c < n ==> (#[trigger] nat_cpus_upto(ranges, n).contains(c) <==> exists|j: int|
                0 <= j < ranges.len() && (#[trigger] ranges[j]).0 <= c <= ranges[j].1),
    decreases n,
{
    if n > 0 {
        let m = (n - 1) as nat;
        lemma_group_members(ranges, m);
        let (a, b) = (nat_cpus_upto(ranges, m), nat_cpus_upto(ranges, n));
        assert forall|c: usize| c < n implies (#[trigger] b.contains(c) <==> exists|j: int|
            0 <= j < ranges.len() && (#[trigger] ranges[j]).0 <= c <= ranges[j].1) by {
            if c < m {
                assert(a.contains(c) <==> exists|j: int|
                    0 <= j < ranges.len() && (#[trigger] ranges[j]).0 <= c <= ranges[j].1);
                if a.contains(c) {
                    let i = a.index_of(c);
                    assert(b[i] == c);
                }
                if b.contains(c) {
                    let i = b.index_of(c);
                    assert(i < a.len());
                    assert(a[i] == c);
                }
            } else {
                if b.len() > a.len() {
                    assert(b[a.len() as int] == c);
                }
                if b.contains(c) && b == a {
                    let i = a.index_of(c);
                    assert(a[i] < m);
                }
            }
        }
    }
}

/// Cores are found CPU by CPU: one that an earlier group holds adds nothing, another one
/// brings the group of its own list, and without a readable list there are no groups.
pub proof fn lemma_groups_found(lists: Seq<Option<Vec<u8>>>, n: nat, cpu: nat)
    ensures
        groups_upto(lists, n, 0) == Some(Seq::<Seq<usize>>::empty()),
        groups_upto(lists, n, cpu) matches Some(gs) ==> {
            let held = exists|i: int|
                0 <= i < gs.len() && (#[trigger] gs[i]).contains(cpu as usize);
            let own: Option<Seq<usize>> = match lists[cpu as int] {
                Some(list) => match ranges_from(list@, 0) {
                    Some(rs) => Some(nat_cpus_upto(rs, n)),
                    None => None,
                },
                None => None,
            };
            &&& held ==> groups_upto(lists, n, cpu + 1) == Some(gs)
            &&& !held && own is Some ==> groups_upto(lists, n, cpu + 1) == Some(
                gs.push(own->Some_0),
            )
            &&& !held && own is None ==> groups_upto(lists, n, cpu + 1) is None
        },
        groups_upto(lists, n, cpu) is None ==> groups_upto(lists, n, cpu + 1) is None,
{
}

/// When workers are pinned, and when the pool is split: one worker for each hardware thread,
/// every core with exactly two, and for the split at least two cores, all of them present
/// and in the mask.
pub proof fn lemma_pool_shapes(
    off: bool,
    want: Option<usize>,
    logical: usize,
    groups: Seq<Vec<usize>>,
    listed: Option<Vec<Vec<usize>>>,
    present: usize,
    pool: usize,
    mask: Seq<u64>,
    c: int,
)
    ensures
        all_pairs(groups) <==> forall|i: int|
            0 <= i < groups.len() ==> (#[trigger] groups[i])@.len() == 2,
        pinned_shape(off, want, logical, listed) <==> !off && want == Some(logical) && (
        listed matches Some(gs) && gs@.len() >= 1 && 2 * gs@.len() == logical && forall|i: int|
            0 <= i < gs@.len() ==> (#[trigger] gs@[i])@.len() == 2),
        split_shape(off, groups, present, pool, mask) <==> !off && groups.len() >= 2 && present == 2
            * groups.len() && pool == present && (forall|i: int|
            0 <= i < groups.len() ==> (#[trigger] groups[i])@.len() == 2) && (forall|i: int, j: int|
            0 <= i < groups.len() && 0 <= j < groups[i]@.len() ==> #[trigger] groups[i]@[j] < 1024
                && (mask[groups[i]@[j] as int / 64] >> ((groups[i]@[j] as int % 64) as u64)) & 1 == 1),
        mask_has(mask, c) <==> (mask[c / 64] >> ((c % 64) as nat as u64)) & 1 == 1,
        all_in_mask(groups, mask) <==> forall|i: int, j: int|
            0 <= i < groups.len() && 0 <= j < groups[i]@.len() ==> #[trigger] groups[i]@[j] < 1024
                && (mask[groups[i]@[j] as int / 64] >> ((groups[i]@[j] as int % 64) as u64)) & 1 == 1,
{
    assert(all_in_mask(groups, mask) <==> forall|i: int, j: int|
        0 <= i < groups.len() && 0 <= j < groups[i]@.len() ==> #[trigger] groups[i]@[j] < 1024
            && (mask[groups[i]@[j] as int / 64] >> ((groups[i]@[j] as int % 64) as u64)) & 1 == 1) by {
        if all_in_mask(groups, mask) {
            assert forall|i: int, j: int|
                0 <= i < groups.len() && 0 <= j < groups[i]@.len() implies #[trigger] groups[i]@[j]
                < 1024 && (mask[groups[i]@[j] as int / 64] >> ((groups[i]@[j] as int % 64) as u64))
                & 1 == 1 by {
                assert(mask_has(mask, groups[i]@[j] as int));
            }
        }
    }
}

/// How many threads a pool gets: no more than are available, one for each physical core
/// where those are known, and one for each performance core where the system names them; and
/// a pinned pool or a number from outside goes before all of that.
pub proof fn lemma_pool_sizes(p: usize, a: usize, n: usize, set: bool, host: HostCores)
    ensures
        p > 0 ==> core_count(Some(p), Some(a)) == if p < a {
            p
        } else {
            a
        },
        core_count(None, Some(a)) == a && core_count(Some(0), Some(a)) == a,
        core_count(None, None) == 1,
        p > 0 ==> core_count(Some(p), None) == 1,
        pool_plan(Some(n), set, host) == PoolPlan::Keep(n),
        pool_plan(None, true, host) == PoolPlan::Leave,
        n > 0 && host.performance == Some(n) ==> pool_plan(None, false, host) == PoolPlan::Build(n),
        host.performance is None || host.performance == Some(0usize) ==> pool_plan(
            None,
            false,
            host,
        ) == PoolPlan::Build(core_count(host.physical, host.available)),
{
}

/// A directory is a CPU's where its name is `cpu` followed by digits alone.
pub proof fn lemma_cpu_dirs(digits: Seq<u8>)
    ensures
        cpu_dir(seq![0x63u8, 0x70u8, 0x75u8] + digits) <==> digits.len() > 0 && forall|i: int|
            0 <= i < digits.len() ==> 48 <= #[trigger] digits[i] <= 57,
{
    let name = seq![0x63u8, 0x70u8, 0x75u8] + digits;
    if cpu_dir(name) {
        assert forall|i: int| 0 <= i < digits.len() implies 48 <= #[trigger] digits[i] <= 57 by {
            assert(48 <= name[i + 3] <= 57);
        }
    } else if digits.len() > 0 && forall|i: int|
        0 <= i < digits.len() ==> 48 <= #[trigger] digits[i] <= 57 {
        assert forall|i: int| 3 <= i < name.len() implies 48 <= #[trigger] name[i] <= 57 by {
            assert(name[i] == digits[i - 3]);
        }
    }
}

/// Chunks of `c` items cover `n` items, and one chunk fewer does not.
pub proof fn lemma_chunks_cover(n: nat, c: nat)
    requires
        c > 0,
    ensures
        chunk_count(n, c) * c >= n,
        chunk_count(n, c) * c < n + c,
{
    let x = n + c - 1;
    let q = x / (c as int);
    vstd::arithmetic::div_mod::lemma_fundamental_div_mod(x, c as int);
    vstd::arithmetic::div_mod::lemma_mod_bound(x, c as int);
    assert(q * c == c * q) by (nonlinear_arith);
}

} // verus!
