//! Host side of the Merkle pipelines: what a session can take on, and what its
//! dispatches cover.

use crate::fold::div_up;
use crate::gpu::{
    can_bind, disable, metal_available, same_but_latch, wrap_input, GpuState, WrapPlan, PAGE,
};
use vstd::arithmetic::power2::pow2;
use vstd::prelude::*;

verus! {

/// Threads per thread group.
pub const TG_THREADS: usize = 256;

/// Bytes of a tree node.
pub const NODE_BYTES: usize = 32;

/// Asks for the pipelines or does without them.
pub fn set_enabled(g: &mut GpuState, on: bool)
    ensures
        *final(g) == (GpuState { merkle_enabled: on, ..*old(g) }),
{
    g.merkle_enabled = on;
}

/// Whether the pipelines can be used.
pub open spec fn merkle_on(g: GpuState) -> bool {
    g.merkle_enabled && !g.no_gpu && !g.no_merkle && !g.disabled && g.usable()
}

/// Whether the pipelines can be used.
pub fn available(g: &GpuState) -> (r: bool)
    ensures
        r == merkle_on(*g),
{
    g.merkle_enabled && !g.no_gpu && !g.no_merkle && !g.disabled && metal_available(g)
}

/// The nodes of the levels from `count` nodes up, as far as a level has `stop` nodes.
pub open spec fn level_nodes(count: nat, stop: nat) -> nat
    decreases count,
{
    if count >= stop && count >= 1 {
        count + level_nodes(count / 2, stop)
    } else {
        0
    }
}

proof fn lemma_level_nodes_bound(count: nat, stop: nat)
    ensures
        level_nodes(count, stop) <= 2 * count,
    decreases count,
{
    if count >= stop && count >= 1 {
        lemma_level_nodes_bound(count / 2, stop);
    }
}

/// The nodes that a session writes for `n_leaves` leaves: the leaves, and every level
/// above them that has at least `stop` nodes.
pub fn needed_nodes(n_leaves: usize, stop: usize) -> (total: usize)
    requires
        2 * n_leaves <= usize::MAX,
    ensures
        total == n_leaves + level_nodes(n_leaves as nat / 2, stop as nat),
{
    let mut total: usize = n_leaves;
    let mut count: usize = n_leaves / 2;
    proof {
        lemma_level_nodes_bound(count as nat, stop as nat);
    }
    while count >= stop && count >= 1
        invariant
            total + level_nodes(count as nat, stop as nat) == n_leaves + level_nodes(
                n_leaves as nat / 2,
                stop as nat,
            ),
            n_leaves + level_nodes(n_leaves as nat / 2, stop as nat) <= usize::MAX,
        decreases count,
    {
        total = total + count;
        count = count / 2;
    }
    total
}

/// A full tree over `2^e` leaves that stops at the level of `2^f` nodes has
/// `2^(e + 1) - 2^f` nodes.
pub proof fn lemma_full_tree_nodes(e: nat, f: nat, stop: nat)
    requires
        f <= e,
        stop <= pow2(f),
        f > 0 ==> stop > pow2((f - 1) as nat),
        f == 0 ==> stop <= 1,
    ensures
        pow2(e) + level_nodes(pow2(e) / 2, stop) == 2 * pow2(e) - pow2(f),
    decreases e,
{
    vstd::arithmetic::power2::lemma2_to64();
    vstd::arithmetic::power2::lemma_pow2_pos(e);
    if e == 0 {
        assert(level_nodes(0, stop) == 0);
    } else {
        let half = pow2((e - 1) as nat);
        vstd::arithmetic::power2::lemma_pow2_unfold(e);
        assert(pow2(e) / 2 == half);
        if f == e {
            assert(half < stop);
            assert(level_nodes(half, stop) == 0);
        } else {
            lemma_full_tree_nodes((e - 1) as nat, f, stop);
            vstd::arithmetic::power2::lemma_pow2_pos((e - 1) as nat);
            if f < e - 1 {
                vstd::arithmetic::power2::lemma_pow2_strictly_increases(f, (e - 1) as nat);
            }
            assert(half >= stop && half >= 1);
        }
    }
}

/// Whether `n` is a power of two.
pub open spec fn is_pow2(n: nat) -> bool
    decreases n,
{
    n == 1 || (n > 0 && n % 2 == 0 && is_pow2(n / 2))
}

/// [`is_pow2`] holds of exactly the powers of two.
pub proof fn lemma_is_pow2(n: nat)
    ensures
        is_pow2(n) <==> exists|e: nat| n == #[trigger] pow2(e),
    decreases n,
{
    vstd::arithmetic::power2::lemma2_to64();
    if n == 1 {
        assert(n == pow2(0));
    } else if n > 0 && n % 2 == 0 {
        lemma_is_pow2(n / 2);
        if is_pow2(n / 2) {
            let e = choose|e: nat| n / 2 == #[trigger] pow2(e);
            vstd::arithmetic::power2::lemma_pow2_unfold(e + 1);
            assert(n == pow2(e + 1));
        }
        if exists|e: nat| n == #[trigger] pow2(e) {
            let e = choose|e: nat| n == #[trigger] pow2(e);
            if e > 0 {
                vstd::arithmetic::power2::lemma_pow2_unfold(e);
                assert(n / 2 == pow2((e - 1) as nat));
            }
        }
    } else if exists|e: nat| n == #[trigger] pow2(e) {
        let e = choose|e: nat| n == #[trigger] pow2(e);
        vstd::arithmetic::power2::lemma_pow2_pos(e);
        if e > 0 {
            vstd::arithmetic::power2::lemma_pow2_unfold(e);
        }
    }
}

fn power_of_two(n: usize) -> (r: bool)
    ensures
        r == is_pow2(n as nat),
{
    let mut rest: usize = n;
    while rest > 0 && rest % 2 == 0
        invariant
            is_pow2(n as nat) == is_pow2(rest as nat),
        decreases rest,
    {
        rest = rest / 2;
    }
    rest == 1
}

/// Whether a session over these regions has a shape that the pipelines take.
pub open spec fn session_shape(
    data_len: int,
    leaf_size: int,
    tree_addr: int,
    tree_len: int,
    stop_nodes: int,
) -> bool {
    let n = data_len / leaf_size;
    let stop = if stop_nodes < 1 {
        1
    } else {
        stop_nodes
    };
    let parents = stop <= n / 2;
    let needed = if parents {
        n + level_nodes((n / 2) as nat, stop as nat)
    } else {
        n
    };
    let bytes = tree_len * NODE_BYTES;
    &&& 0 < leaf_size <= 1024
    &&& leaf_size % 64 == 0
    &&& data_len > 0
    &&& data_len % leaf_size == 0
    &&& parents ==> is_pow2(n as nat)
    &&& tree_addr % (PAGE as int) == 0
    &&& needed * NODE_BYTES <= bytes - bytes % (PAGE as int)
}

/// An open session over a leaf region and a tree region.
#[derive(Clone, Debug, PartialEq, Eq)]
pub struct Session {
    pub n_leaves: usize,
    pub words_per_leaf: usize,
    pub n_blocks: usize,
    /// Parent levels are computed while they have at least this many nodes.
    pub stop_nodes: usize,
    /// Dispatches handed over so far.
    pub committed: usize,
    pub failed: bool,
}

impl Session {
    pub open spec fn wf(&self) -> bool {
        &&& self.stop_nodes >= 1
        &&& 4 * self.n_leaves <= usize::MAX
    }
}

/// The session that the regions lead to, as far as their shape allows one. `None` says
/// that the leaves are hashed on the CPU; nothing is latched by it.
pub fn plan_session(
    g: &GpuState,
    data_len: usize,
    leaf_size: usize,
    tree_addr: usize,
    tree_len: usize,
    stop_nodes: usize,
) -> (r: Option<Session>)
    requires
        tree_len * NODE_BYTES <= usize::MAX,
    ensures
        (r is Some) == (merkle_on(*g) && session_shape(
            data_len as int,
            leaf_size as int,
            tree_addr as int,
            tree_len as int,
            stop_nodes as int,
        )),
        r matches Some(s) ==> s.wf() && s.n_leaves == data_len / leaf_size && s.words_per_leaf
            == leaf_size / 4 && s.n_blocks == leaf_size / 64 && s.stop_nodes == (if stop_nodes < 1 {
            1
        } else {
            stop_nodes
        }) && s.committed == 0 && !s.failed,
{
    if !available(g) {
        return None;
    }
    if leaf_size == 0 || leaf_size % 64 != 0 || leaf_size > 1024 {
        return None;
    }
    if data_len == 0 || data_len % leaf_size != 0 {
        return None;
    }
    let n_leaves: usize = data_len / leaf_size;
    let stop: usize = if stop_nodes < 1 {
        1
    } else {
        stop_nodes
    };
    let do_parents: bool = stop <= n_leaves / 2;
    if do_parents && !power_of_two(n_leaves) {
        return None;
    }
    proof {
        let (d, l, n) = (data_len as int, leaf_size as int, n_leaves as int);
        assert(64 * n <= d) by (nonlinear_arith)
            requires
                n == d / l,
                l >= 64,
                d >= 0,
        ;
        lemma_level_nodes_bound(n_leaves as nat / 2, stop as nat);
    }
    let needed: usize = if do_parents {
        needed_nodes(n_leaves, stop)
    } else {
        n_leaves
    };
    if tree_addr % PAGE != 0 {
        return None;
    }
    let bytes: usize = tree_len * NODE_BYTES;
    let wrapped: usize = bytes - bytes % PAGE;
    if wrapped < needed * NODE_BYTES {
        return None;
    }
    Some(
        Session {
            n_leaves,
            words_per_leaf: leaf_size / 4,
            n_blocks: leaf_size / 64,
            stop_nodes: stop,
            committed: 0,
            failed: false,
        },
    )
}

/// Opens a session. `data_bound` and `tree_bound` say whether the device bound the two
/// regions. A shape that the session does not take, or a leaf region that can be bound
/// neither in place nor through a copy, leaves the leaves to the CPU. A device that
/// refused to bind a region latches the fallback as well.
pub fn begin(
    g: &mut GpuState,
    data_addr: usize,
    data_len: usize,
    leaf_size: usize,
    tree_addr: usize,
    tree_len: usize,
    stop_nodes: usize,
    data_bound: bool,
    tree_bound: bool,
) -> (r: Option<Session>)
    requires
        tree_len * NODE_BYTES <= usize::MAX,
    ensures
        ({
            let shaped = merkle_on(*old(g)) && session_shape(
                data_len as int,
                leaf_size as int,
                tree_addr as int,
                tree_len as int,
                stop_nodes as int,
            );
            let wanted = shaped && can_bind(data_addr, data_len);
            let bound = data_bound && tree_bound;
            &&& (r is Some) == (wanted && bound)
            &&& same_but_latch(*final(g), *old(g))
            &&& final(g).disabled == (old(g).disabled || (wanted && !bound))
        }),
        r matches Some(s) ==> s.wf() && s.n_leaves == data_len / leaf_size && s.words_per_leaf
            == leaf_size / 4 && s.n_blocks == leaf_size / 64 && s.stop_nodes == (if stop_nodes < 1 {
            1
        } else {
            stop_nodes
        }) && s.committed == 0 && !s.failed,
{
    match plan_session(g, data_len, leaf_size, tree_addr, tree_len, stop_nodes) {
        None => None,
        Some(s) => {
            match wrap_input(data_addr, data_len) {
                WrapPlan::Refuse => {
                    return None;
                },
                _ => {},
            }
            if !data_bound || !tree_bound {
                disable(g);
                return None;
            }
            Some(s)
        },
    }
}

/// One dispatch of the leaf kernel.
#[derive(Clone, Copy, Debug, PartialEq, Eq, Structural)]
pub struct LeafDispatch {
    pub leaf_lo: u32,
    pub count: u32,
    pub words_per_leaf: u32,
    pub n_blocks: u32,
    /// Thread groups.
    pub groups: usize,
}

/// One level of the parent kernel: `count` nodes from `dst_base`, each out of two nodes
/// from `src_base`.
#[derive(Clone, Copy, Debug, PartialEq, Eq, Structural)]
pub struct ParentDispatch {
    pub src_base: usize,
    pub dst_base: usize,
    pub count: usize,
    /// Thread groups.
    pub groups: usize,
}

/// What a session asks of the device.
#[derive(Clone, Debug, PartialEq, Eq)]
pub enum ParentPlan {
    /// Nothing: the session failed.
    Failed,
    /// Nothing: the session computes leaves only.
    LeafOnly,
    /// These levels, in order.
    Levels(Vec<ParentDispatch>),
}

/// The thread groups that cover `count` nodes.
pub open spec fn group_count(count: nat) -> nat {
    ((count + TG_THREADS - 1) / (TG_THREADS as int)) as nat
}

/// The levels that a session computes, from the one of `count` nodes up: where each one
/// reads and writes, its nodes and its thread groups.
pub open spec fn levels_from(src: nat, dst: nat, count: nat, stop: nat) -> Seq<
    (nat, nat, nat, nat),
>
    decreases count,
{
    if count >= stop && count >= 1 {
        seq![(src, dst, count, group_count(count))] + levels_from(dst, dst + count, count / 2, stop)
    } else {
        Seq::empty()
    }
}

/// A level as plain numbers.
pub open spec fn level_view(d: ParentDispatch) -> (nat, nat, nat, nat) {
    (d.src_base as nat, d.dst_base as nat, d.count as nat, d.groups as nat)
}

/// The levels lie one after the other behind the leaves and fill exactly the nodes that
/// the session needs.
pub proof fn lemma_levels_fill(src: nat, dst: nat, count: nat, stop: nat, i: int)
    requires
        0 <= i < levels_from(src, dst, count, stop).len(),
    ensures
        ({
            let l = levels_from(src, dst, count, stop);
            &&& dst <= l[i].1
            &&& l[i].1 + l[i].2 <= dst + level_nodes(count, stop)
            &&& i + 1 < l.len() ==> l[i + 1].0 == l[i].1 && l[i + 1].1 == l[i].1 + l[i].2 && l[i
                + 1].2 == l[i].2 / 2
            &&& i + 1 == l.len() ==> l[i].1 + l[i].2 == dst + level_nodes(count, stop)
        }),
    decreases count,
{
    let l = levels_from(src, dst, count, stop);
    let rest = levels_from(dst, dst + count, count / 2, stop);
    if i > 0 {
        lemma_levels_fill(dst, dst + count, count / 2, stop, i - 1);
        assert(l[i] == rest[i - 1]);
        if i + 1 < l.len() {
            assert(l[i + 1] == rest[i]);
        }
    } else if rest.len() > 0 {
        assert(l[1] == rest[0]);
    } else {
        assert(level_nodes(count / 2, stop) == 0);
    }
}

impl Session {
    /// The number of leaves.
    pub fn n_leaves(&self) -> (r: usize)
        ensures
            r == self.n_leaves,
    {
        self.n_leaves
    }

    /// Plans the hashing of the leaves `leaf_lo .. leaf_hi`, or refuses it: on a failed
    /// session, behind the latch, and for a range that is empty or out of bounds.
    pub fn commit_leaves(&self, g: &GpuState, leaf_lo: usize, leaf_hi: usize) -> (r: Option<
        LeafDispatch,
    >)
        ensures
            (r is Some) == (!self.failed && !g.disabled && leaf_lo < leaf_hi && leaf_hi
                <= self.n_leaves),
            r matches Some(d) ==> d.leaf_lo == leaf_lo as u32 && d.count == (leaf_hi - leaf_lo) as u32
                && d.words_per_leaf == self.words_per_leaf as u32 && d.n_blocks == self.n_blocks as u32
                && d.groups == (leaf_hi - leaf_lo + TG_THREADS - 1) / (TG_THREADS as int),
    {
        if self.failed || g.disabled {
            return None;
        }
        if leaf_lo >= leaf_hi || leaf_hi > self.n_leaves {
            return None;
        }
        let count: usize = leaf_hi - leaf_lo;
        Some(
            LeafDispatch {
                leaf_lo: leaf_lo as u32,
                count: count as u32,
                words_per_leaf: self.words_per_leaf as u32,
                n_blocks: self.n_blocks as u32,
                groups: div_up(count, TG_THREADS),
            },
        )
    }

    /// Plans the parent levels that the session computes.
    pub fn commit_parent_levels(&self, g: &GpuState) -> (r: ParentPlan)
        requires
            self.wf(),
        ensures
            match r {
                ParentPlan::Failed => self.failed || g.disabled,
                ParentPlan::LeafOnly => !self.failed && !g.disabled && self.stop_nodes
                    > self.n_leaves / 2,
                ParentPlan::Levels(v) => {
                    &&& !self.failed && !g.disabled && self.stop_nodes <= self.n_leaves / 2
                    &&& v@.map_values(|d: ParentDispatch| level_view(d)) == levels_from(
                        0,
                        self.n_leaves as nat,
                        self.n_leaves as nat / 2,
                        self.stop_nodes as nat,
                    )
                },
            },
    {
        if self.failed || g.disabled {
            return ParentPlan::Failed;
        }
        if self.stop_nodes > self.n_leaves / 2 {
            return ParentPlan::LeafOnly;
        }
        let mut v: Vec<ParentDispatch> = Vec::new();
        let mut src_base: usize = 0;
        let mut dst_base: usize = self.n_leaves;
        let mut count: usize = self.n_leaves / 2;
        let ghost all = levels_from(
            0,
            self.n_leaves as nat,
            self.n_leaves as nat / 2,
            self.stop_nodes as nat,
        );
        let ghost f = |d: ParentDispatch| level_view(d);
        while count >= self.stop_nodes
            invariant
                self.wf(),
                dst_base + 2 * count <= 2 * self.n_leaves,
                f == (|d: ParentDispatch| level_view(d)),
                v@.map_values(f) + levels_from(
                    src_base as nat,
                    dst_base as nat,
                    count as nat,
                    self.stop_nodes as nat,
                ) == all,
            decreases count,
        {
            let d: ParentDispatch = ParentDispatch {
                src_base,
                dst_base,
                count,
                groups: div_up(count, TG_THREADS),
            };
            let ghost before = v@;
            v.push(d);
            proof {
                let head = seq![level_view(d)];
                let tail = levels_from(
                    dst_base as nat,
                    (dst_base + count) as nat,
                    count as nat / 2,
                    self.stop_nodes as nat,
                );
                assert(v@.map_values(f) =~= before.map_values(f) + head);
                assert(before.map_values(f) + (head + tail) =~= (before.map_values(f) + head)
                    + tail);
            }
            src_base = dst_base;
            dst_base = dst_base + count;
            count = count / 2;
        }
        proof {
            assert(levels_from(
                src_base as nat,
                dst_base as nat,
                count as nat,
                self.stop_nodes as nat,
            ) =~= Seq::empty());
            assert(v@.map_values(f) =~= all);
        }
        ParentPlan::Levels(v)
    }

    /// Notes the outcome of handing over one dispatch. A failure marks the session and
    /// latches the fallback.
    pub fn committed(&mut self, g: &mut GpuState, ok: bool)
        requires
            old(self).committed < usize::MAX,
        ensures
            final(self).failed == (old(self).failed || !ok),
            final(self).committed == if ok {
                (old(self).committed + 1) as usize
            } else {
                old(self).committed
            },
            *final(self) == (Session {
                failed: final(self).failed,
                committed: final(self).committed,
                ..*old(self)
            }),
            same_but_latch(*final(g), *old(g)),
            final(g).disabled == (old(g).disabled || !ok),
    {
        if ok {
            self.committed = self.committed + 1;
        } else {
            self.failed = true;
            disable(g);
        }
    }

    /// Closes the session: whether every dispatch completed. Anything else latches the
    /// fallback.
    pub fn finish(self, g: &mut GpuState, all_completed: bool) -> (ok: bool)
        ensures
            ok == (!self.failed && all_completed),
            same_but_latch(*final(g), *old(g)),
            final(g).disabled == (old(g).disabled || !ok),
    {
        let ok: bool = !self.failed && all_completed;
        if !ok {
            disable(g);
        }
        ok
    }
}

} // verus!
