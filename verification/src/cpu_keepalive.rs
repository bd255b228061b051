//! When the spin threads that hold the core clocks up start, run on and stop.

use vstd::prelude::*;

verus! {

/// How long a spin thread runs at most, in nanoseconds.
pub const MAX_KEEPALIVE_NS: u64 = 2_000_000_000;

/// Iterations of the spin body between two looks at the clock.
pub const SPIN_STEPS: u32 = 64;

/// The spin threads as the owner sees them.
#[derive(Clone, Copy, Debug, PartialEq, Eq, Structural)]
pub struct Keepalive {
    /// Whether the threads should keep running.
    pub running: bool,
    /// Threads started and not yet finished.
    pub live: usize,
}

/// What to do about threads that may still be there.
#[derive(Clone, Copy, Debug, PartialEq, Eq, Structural)]
pub enum Joining {
    /// No thread is left.
    Quiet,
    /// Threads are left, and the wait goes on.
    Waiting,
}

impl Keepalive {
    /// No thread runs.
    pub fn new() -> (k: Self)
        ensures
            !k.running,
            k.live == 0,
    {
        Keepalive { running: false, live: 0 }
    }
}

/// Asks for the spin threads: returns how many to start, one for each of `threads` and
/// at least one. Nothing is started where they are switched off or already run.
pub fn keepalive_start(k: &mut Keepalive, switched_off: bool, threads: usize) -> (n: usize)
    ensures
        final(k).live == old(k).live,
        if switched_off || old(k).running {
            n == 0 && final(k).running == old(k).running
        } else {
            final(k).running && n == if threads == 0 {
                1
            } else {
                threads
            }
        },
{
    if switched_off || k.running {
        return 0;
    }
    k.running = true;
    if threads == 0 {
        1
    } else {
        threads
    }
}

/// Notes the outcome of starting one thread. The first failure ends the starting.
pub fn keepalive_spawned(k: &mut Keepalive, ok: bool) -> (go_on: bool)
    requires
        old(k).live < usize::MAX,
    ensures
        go_on == ok,
        final(k).running == old(k).running,
        final(k).live == if ok {
            (old(k).live + 1) as usize
        } else {
            old(k).live
        },
{
    if ok {
        k.live = k.live + 1;
    }
    ok
}

/// The state once one thread has finished.
pub open spec fn exited(k: Keepalive) -> Keepalive {
    Keepalive { live: (k.live - 1) as usize, ..k }
}

/// The state once `n` threads have finished.
pub open spec fn after_exits(k: Keepalive, n: nat) -> Keepalive
    decreases n,
{
    if n == 0 {
        k
    } else {
        exited(after_exits(k, (n - 1) as nat))
    }
}

/// Notes that one thread finished.
pub fn keepalive_exited(k: &mut Keepalive)
    requires
        old(k).live > 0,
    ensures
        *final(k) == exited(*old(k)),
{
    k.live = k.live - 1;
}

/// Whether a spin thread goes round again.
pub fn keeps_spinning(running: bool, spun_ns: u64) -> (r: bool)
    ensures
        r == (running && spun_ns < MAX_KEEPALIVE_NS),
{
    running && spun_ns < MAX_KEEPALIVE_NS
}

/// One step of the integer churn of a spin thread.
pub open spec fn churn_step(x: u64) -> u64 {
    let y = x.wrapping_mul(0x2545_F491_4F6C_DD1D).wrapping_add(0x9E37_79B9_7F4A_7C15);
    y ^ (y >> 29)
}

/// `n` steps of the churn.
pub open spec fn churned(x: u64, n: nat) -> u64
    decreases n,
{
    if n == 0 {
        x
    } else {
        churn_step(churned(x, (n - 1) as nat))
    }
}

/// The work between two looks at the clock.
pub fn spin_batch(x: u64) -> (r: u64)
    ensures
        r == churned(x, SPIN_STEPS as nat),
{
    let mut y: u64 = x;
    let mut i: u32 = 0;
    while i < SPIN_STEPS
        invariant
            i <= SPIN_STEPS,
            y == churned(x, i as nat),
        decreases SPIN_STEPS - i,
    {
        y = y.wrapping_mul(0x2545_F491_4F6C_DD1D).wrapping_add(0x9E37_79B9_7F4A_7C15);
        y = y ^ (y >> 29);
        i = i + 1;
    }
    y
}

/// The state once the threads have been told to finish.
pub open spec fn stopped(k: Keepalive) -> Keepalive {
    Keepalive { running: false, ..k }
}

/// Whether waiting for the threads is over.
pub open spec fn joining(k: Keepalive) -> Joining {
    if k.live == 0 {
        Joining::Quiet
    } else {
        Joining::Waiting
    }
}

/// Tells the threads to finish, without waiting.
pub fn keepalive_signal(k: &mut Keepalive)
    ensures
        *final(k) == stopped(*old(k)),
{
    k.running = false;
}

/// Whether waiting for the threads is over: it is once every thread has finished.
pub fn keepalive_join(k: &Keepalive) -> (r: Joining)
    ensures
        r == joining(*k),
{
    if k.live == 0 {
        Joining::Quiet
    } else {
        Joining::Waiting
    }
}

/// Tells the threads to finish and takes a first look whether they have.
pub fn keepalive_stop(k: &mut Keepalive) -> (r: Joining)
    ensures
        *final(k) == stopped(*old(k)),
        r == joining(*final(k)),
{
    keepalive_signal(k);
    keepalive_join(k)
}

/// Threads that finish leave the flag alone and are counted out one by one.
pub proof fn lemma_exits_count_down(k: Keepalive, n: nat)
    requires
        n <= k.live,
    ensures
        after_exits(k, n).running == k.running,
        after_exits(k, n).live == k.live - n,
    decreases n,
{
    if n > 0 {
        lemma_exits_count_down(k, (n - 1) as nat);
    }
}

/// Stopping is clean, whatever was started before: once each live thread has finished,
/// the threads are not asked to run, none is live, and the wait is over. Where nothing
/// was started, stopping changes nothing and there is nothing to wait for.
pub proof fn lemma_stop_is_clean(k: Keepalive)
    ensures
        ({
            let end = after_exits(stopped(k), k.live as nat);
            &&& !end.running && end.live == 0
            &&& joining(end) == Joining::Quiet
        }),
        !k.running ==> stopped(k) == k,
        k.live == 0 ==> joining(stopped(k)) == Joining::Quiet,
{
    lemma_exits_count_down(stopped(k), k.live as nat);
}

/// A wait after a stop ends only once no thread is live: while any of them has yet to
/// finish it goes on, however long that takes.
pub proof fn lemma_wait_ends_with_none_live(k: Keepalive, n: nat)
    requires
        n <= k.live,
    ensures
        ({
            let now = after_exits(stopped(k), n);
            &&& !now.running
            &&& joining(now) == Joining::Quiet <==> now.live == 0
            &&& joining(now) == Joining::Quiet <==> n == k.live
        }),
{
    lemma_exits_count_down(stopped(k), n);
}

} // verus!
