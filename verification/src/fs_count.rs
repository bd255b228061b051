//! Counters for the hashing that a transcript costs.

use vstd::prelude::*;

verus! {

/// How often a transcript was squeezed, and how many proof-of-work hashes were tried,
/// under whichever hash the transcript uses. Both counters wrap.
#[derive(Clone, Copy, Debug, PartialEq, Eq, Structural)]
pub struct FsCount {
    pub squeezes: u64,
    pub pow_sha256: u64,
}

impl FsCount {
    /// The counters after so many more squeezes and proof-of-work hashes.
    pub open spec fn plus(self, squeezes: int, hashes: int) -> FsCount {
        FsCount {
            squeezes: ((self.squeezes + squeezes) % 0x1_0000_0000_0000_0000) as u64,
            pow_sha256: ((self.pow_sha256 + hashes) % 0x1_0000_0000_0000_0000) as u64,
        }
    }

    pub fn new() -> (c: Self)
        ensures
            c.squeezes == 0,
            c.pow_sha256 == 0,
    {
        FsCount { squeezes: 0, pow_sha256: 0 }
    }

    /// Counts one squeeze.
    pub fn note_squeeze(&mut self)
        ensures
            *final(self) == old(self).plus(1, 0),
    {
        self.squeezes = self.squeezes.wrapping_add(1);
    }

    /// Counts `n` proof-of-work hashes.
    pub fn note_pow(&mut self, n: u64)
        ensures
            *final(self) == old(self).plus(0, n as int),
    {
        self.pow_sha256 = self.pow_sha256.wrapping_add(n);
    }

    /// Adds what another transcript has counted.
    pub fn gather(&mut self, other: FsCount)
        ensures
            *final(self) == old(self).plus(other.squeezes as int, other.pow_sha256 as int),
    {
        self.squeezes = self.squeezes.wrapping_add(other.squeezes);
        self.pow_sha256 = self.pow_sha256.wrapping_add(other.pow_sha256);
    }
}

/// Sets both counters to zero.
pub fn reset(c: &mut FsCount)
    ensures
        final(c).squeezes == 0,
        final(c).pow_sha256 == 0,
{
    c.squeezes = 0;
    c.pow_sha256 = 0;
}

/// The two counters.
pub fn snapshot(c: &FsCount) -> (r: (u64, u64))
    ensures
        r == (c.squeezes, c.pow_sha256),
{
    (c.squeezes, c.pow_sha256)
}

/// Counts add up: what two stretches of work add is what both together add.
pub proof fn lemma_counts_add(c: FsCount, squeezes: int, hashes: int, more: int, further: int)
    ensures
        c.plus(squeezes, hashes).plus(more, further) == c.plus(squeezes + more, hashes + further),
        c.plus(0, 0) == c,
{
}

} // verus!
