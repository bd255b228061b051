//! Wall-clock gaps between the phases of a proof.

use vstd::prelude::*;

verus! {

/// The clock readings that gaps are measured against, in nanoseconds.
#[derive(Clone, Copy, Debug, PartialEq, Eq, Structural)]
pub struct GapClock {
    pub begin_ns: u64,
    pub last_ns: u64,
}

/// One phase boundary: the time since the previous one and since the beginning.
#[derive(Clone, Copy, Debug, PartialEq, Eq, Structural)]
pub struct Gap {
    pub delta_ns: u64,
    pub offset_ns: u64,
}

/// `a - b`, or zero where the clock ran backwards.
pub open spec fn since(a: u64, b: u64) -> int {
    if a < b {
        0
    } else {
        a - b
    }
}

impl GapClock {
    pub fn new() -> (c: Self)
        ensures
            c.begin_ns == 0,
            c.last_ns == 0,
    {
        GapClock { begin_ns: 0, last_ns: 0 }
    }
}

/// Starts a proof's measurement; says whether a header is due.
pub fn begin(clock: &mut GapClock, on: bool, now_ns: u64) -> (header: bool)
    ensures
        header == on,
        *final(clock) == if on {
            GapClock { begin_ns: now_ns, last_ns: now_ns }
        } else {
            *old(clock)
        },
{
    if on {
        clock.begin_ns = now_ns;
        clock.last_ns = now_ns;
    }
    on
}

/// Records a boundary.
pub fn mark(clock: &mut GapClock, on: bool, now_ns: u64) -> (gap: Option<Gap>)
    ensures
        final(clock).begin_ns == old(clock).begin_ns,
        final(clock).last_ns == if on {
            now_ns
        } else {
            old(clock).last_ns
        },
        match gap {
            Some(g) => on && g.delta_ns == since(now_ns, old(clock).last_ns) && g.offset_ns == since(
                now_ns,
                old(clock).begin_ns,
            ),
            None => !on,
        },
{
    if !on {
        return None;
    }
    let delta_ns: u64 = now_ns.saturating_sub(clock.last_ns);
    let offset_ns: u64 = now_ns.saturating_sub(clock.begin_ns);
    clock.last_ns = now_ns;
    Some(Gap { delta_ns, offset_ns })
}

/// The sum of the deltas of boundaries at `times`, the first of them measured from
/// `begin`.
pub open spec fn total_delta(begin: u64, times: Seq<u64>) -> int
    decreases times.len(),
{
    if times.len() == 0 {
        0
    } else {
        let before = if times.len() == 1 {
            begin
        } else {
            times[times.len() - 2]
        };
        total_delta(begin, times.drop_last()) + since(times.last(), before)
    }
}

/// On a clock that does not run backwards the deltas account for the whole time: they
/// add up to the offset of the last boundary.
pub proof fn lemma_deltas_account_for_all(begin: u64, times: Seq<u64>)
    requires
        times.len() > 0,
        begin <= times[0],
        forall|i: int, j: int| 0 <= i <= j < times.len() ==> times[i] <= times[j],
    ensures
        total_delta(begin, times) == since(times.last(), begin),
    decreases times.len(),
{
    if times.len() > 1 {
        let rest = times.drop_last();
        lemma_deltas_account_for_all(begin, rest);
        assert(rest.last() == times[times.len() - 2]);
        assert(rest[0] == times[0]);
        assert(times[0] <= times[times.len() - 2]);
    } else {
        assert(times.drop_last().len() == 0);
        assert(total_delta(begin, times.drop_last()) == 0);
    }
}

} // verus!
