//! Host side of the GPU offload: availability, the failure latch and how buffers are
//! bound.

use vstd::prelude::*;

verus! {

/// Lanes per bank of the round-one kernel.
pub const ELL: usize = 64;

/// Page size that a zero-copy binding needs.
pub const PAGE: usize = 16384;

/// Largest buffer that is copied where it cannot be bound in place.
pub const MAX_COPY_BYTES: usize = 33554432;

/// Most bindings that are kept.
pub const WRAP_CACHE_CAP: usize = 24;

/// Smallest buffer whose binding is kept.
pub const WRAP_CACHE_MIN_BYTES: usize = 67108864;

/// The first split of the round-one work.
pub const INITIAL_G: usize = 64;

/// Smallest and largest measured share.
pub const G_MIN: usize = 16;

pub const G_MAX: usize = 112;

/// Whether the GPU may take that many of the 128 high indices: none, or a share within
/// the bounds.
pub open spec fn share_in_bounds(g: usize) -> bool {
    g == 0 || G_MIN <= g <= G_MAX
}

/// What the process knows about its GPU.
pub struct GpuState {
    /// A device with compiled pipelines was found.
    pub has_context: bool,
    /// Offloading is switched off altogether.
    pub no_gpu: bool,
    /// The round-one pipeline is switched off.
    pub no_urm: bool,
    /// The Merkle pipelines are switched off.
    pub no_merkle: bool,
    /// A runtime failure sent everything back to the CPU.
    pub disabled: bool,
    /// The round-one pipeline is wanted.
    pub urm_enabled: bool,
    /// The Merkle pipelines are wanted.
    pub merkle_enabled: bool,
    /// How many of the 128 high indices the GPU takes.
    pub split_g: usize,
    /// The split was measured.
    pub calibrated: bool,
    /// Address and length of the buffers whose bindings are kept.
    pub wrap_cache: Vec<(usize, usize)>,
}

impl GpuState {
    /// The split stays within its bounds, the cache within its own, and the cache lists no
    /// buffer twice.
    pub open spec fn wf(&self) -> bool {
        &&& share_in_bounds(self.split_g)
        &&& self.wrap_cache@.len() <= WRAP_CACHE_CAP
        &&& self.wrap_cache@.no_duplicates()
    }

    /// Whether the GPU can be used at all.
    pub open spec fn usable(&self) -> bool {
        !self.no_gpu && self.has_context
    }

    /// The state at process start.
    pub fn new(has_context: bool, no_gpu: bool, no_urm: bool, no_merkle: bool) -> (g: Self)
        ensures
            g.wf(),
            g.has_context == has_context,
            g.no_gpu == no_gpu,
            g.no_urm == no_urm,
            g.no_merkle == no_merkle,
            !g.disabled,
            g.urm_enabled,
            g.merkle_enabled,
            g.split_g == INITIAL_G,
            !g.calibrated,
            g.wrap_cache@ == Seq::<(usize, usize)>::empty(),
    {
        GpuState {
            has_context,
            no_gpu,
            no_urm,
            no_merkle,
            disabled: false,
            urm_enabled: true,
            merkle_enabled: true,
            split_g: INITIAL_G,
            calibrated: false,
            wrap_cache: Vec::new(),
        }
    }

    /// The state on a machine without a supported GPU.
    pub fn without_gpu() -> (g: Self)
        ensures
            g.wf(),
            !g.usable(),
            !g.has_context && g.no_gpu && g.no_urm && g.no_merkle,
            !g.disabled,
            g.urm_enabled && g.merkle_enabled,
            g.split_g == INITIAL_G && !g.calibrated,
            g.wrap_cache@ == Seq::<(usize, usize)>::empty(),
    {
        GpuState::new(false, true, true, true)
    }
}

/// The two states agree on everything but the failure latch.
pub open spec fn same_but_latch(a: GpuState, b: GpuState) -> bool {
    a == (GpuState { disabled: a.disabled, ..b })
}

/// Notes whether a context was found when the device was looked for. Where it was not,
/// though the GPU may be used, the fallback is latched.
pub fn note_context(g: &mut GpuState, found: bool)
    ensures
        *final(g) == (GpuState {
            has_context: found,
            disabled: old(g).disabled || (!old(g).no_gpu && !found),
            ..*old(g)
        }),
{
    g.has_context = found;
    if !g.no_gpu && !found {
        g.disabled = true;
    }
}

/// Whether a usable context exists.
pub fn metal_available(g: &GpuState) -> (r: bool)
    ensures
        r == g.usable(),
{
    !g.no_gpu && g.has_context
}

/// Whether a failure sent everything back to the CPU.
pub fn is_disabled(g: &GpuState) -> (r: bool)
    ensures
        r == g.disabled,
{
    g.disabled
}

/// Latches the fallback to the CPU.
pub fn disable(g: &mut GpuState)
    ensures
        final(g).disabled,
        same_but_latch(*final(g), *old(g)),
{
    g.disabled = true;
}

/// Clears the failure latch.
pub fn undisable(g: &mut GpuState)
    ensures
        !final(g).disabled,
        same_but_latch(*final(g), *old(g)),
{
    g.disabled = false;
}

/// Whether a buffer starts on a page and fills whole pages.
pub open spec fn page_shaped(addr: usize, len: usize) -> bool {
    addr % PAGE == 0 && len > 0 && len % PAGE == 0
}

/// Whether an input buffer can be bound, in place or through a copy.
pub open spec fn can_bind(addr: usize, len: usize) -> bool {
    page_shaped(addr, len) || len <= MAX_COPY_BYTES
}

/// How an input buffer is bound.
#[derive(Clone, Copy, Debug, PartialEq, Eq, Structural)]
pub enum WrapPlan {
    /// In place.
    NoCopy,
    /// Through a copy.
    Copy,
    /// Not at all.
    Refuse,
}

/// Decides how an input buffer is bound: in place where it is made of whole pages,
/// through a copy where it is small enough for one.
pub fn wrap_input(addr: usize, len: usize) -> (p: WrapPlan)
    ensures
        p == if page_shaped(addr, len) {
            WrapPlan::NoCopy
        } else if len <= MAX_COPY_BYTES {
            WrapPlan::Copy
        } else {
            WrapPlan::Refuse
        },
{
    if addr % PAGE == 0 && len > 0 && len % PAGE == 0 {
        WrapPlan::NoCopy
    } else if len <= MAX_COPY_BYTES {
        WrapPlan::Copy
    } else {
        WrapPlan::Refuse
    }
}

/// Whether the buffer should be bound ahead of time: only where it would be kept.
pub fn prewire(g: &GpuState, addr: usize, len: usize) -> (r: bool)
    ensures
        r == (!g.disabled && g.usable() && page_shaped(addr, len) && len >= WRAP_CACHE_MIN_BYTES),
{
    !g.disabled && metal_available(g) && addr % PAGE == 0 && len > 0 && len % PAGE == 0 && len
        >= WRAP_CACHE_MIN_BYTES
}

/// Where the cache lists the buffer.
fn cache_find(cache: &Vec<(usize, usize)>, addr: usize, len: usize) -> (r: bool)
    ensures
        r == cache@.contains((addr, len)),
{
    let n: usize = cache.len();
    let mut i: usize = 0;
    while i < n
        invariant
            i <= n,
            n == cache@.len(),
            forall|j: int| 0 <= j < i ==> #[trigger] cache@[j] != (addr, len),
        decreases n - i,
    {
        let (a, l) = cache[i];
        if a == addr && l == len {
            proof {
                assert(cache@[i as int] == (addr, len));
            }
            return true;
        }
        i = i + 1;
    }
    false
}

/// Whether an in-place binding of the buffer is at hand.
pub fn wrap_hit(g: &GpuState, addr: usize, len: usize) -> (r: bool)
    ensures
        r == (len >= WRAP_CACHE_MIN_BYTES && g.wrap_cache@.contains((addr, len))),
{
    len >= WRAP_CACHE_MIN_BYTES && cache_find(&g.wrap_cache, addr, len)
}

/// Notes a fresh in-place binding. It is kept where the buffer is large, the cache has
/// room and does not list it; a binding that is not kept belongs to the caller.
pub fn wrap_nocopy(g: &mut GpuState, addr: usize, len: usize) -> (kept: bool)
    requires
        old(g).wf(),
    ensures
        final(g).wf(),
        kept == (len >= WRAP_CACHE_MIN_BYTES && old(g).wrap_cache@.len() < WRAP_CACHE_CAP && !old(
            g,
        ).wrap_cache@.contains((addr, len))),
        final(g).wrap_cache@ == if kept {
            old(g).wrap_cache@.push((addr, len))
        } else {
            old(g).wrap_cache@
        },
        *final(g) == (GpuState { wrap_cache: final(g).wrap_cache, ..*old(g) }),
{
    if len >= WRAP_CACHE_MIN_BYTES && g.wrap_cache.len() < WRAP_CACHE_CAP && !cache_find(
        &g.wrap_cache,
        addr,
        len,
    ) {
        g.wrap_cache.push((addr, len));
        return true;
    }
    false
}

} // verus!
