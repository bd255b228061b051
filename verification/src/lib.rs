//! Verified core of a GF(2^128) lincheck prover: field kernels, Fiat-Shamir
//! transcripts, sumcheck folding and the host-side decision logic around them.

pub mod field;
pub mod inverse;
pub mod num;
pub mod sums;
pub mod eq;
pub mod bits;
pub mod f128_slice;
pub mod tables;
pub mod poly;
mod par;
pub mod fold;
pub mod stripe;
pub mod planes;
pub mod gather;
pub mod block_major;
pub mod gfni;
pub mod dispatch;
pub mod fold_laws;
pub mod r1cs;
pub mod circuit;
pub mod csc;
pub mod hash;
pub mod pow;
pub mod transcript;
pub mod fs_count;
pub mod challenger;
pub mod transcript_laws;
pub mod pow_laws;
pub mod sumcheck;
pub mod lincheck;
pub mod lincheck_laws;
pub mod lincheck_soundness;
pub mod record;
pub mod layout_laws;
pub mod kernel_laws;
pub mod last_rho;
pub mod gpu;
pub mod urm;
pub mod merkle;
pub mod cpu_keepalive;
pub mod gaptime;
pub mod topology;
pub mod host_laws;
