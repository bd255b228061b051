# flock_core

Verified core of the lincheck argument for block-diagonal R1CS over GF(2): the prover,
the verifier, and what they stand on. Every function of `src/` carries a contract that
Verus proves.

| Modules | What they hold |
| --- | --- |
| `field`, `inverse`, `num`, `sums`, `eq`, `poly`, `bits` | GF(2^128), that it is a field, finite sums, equality and Lagrange weights, polynomials and their roots, bits of words |
| `f128_slice`, `sumcheck` | slice kernels and the rounds of the product sumcheck |
| `tables`, `fold`, `stripe`, `planes`, `gather`, `block_major`, `gfni`, `dispatch`, `fold_laws` | the witness fold in both layouts, in all its blockings, and that they agree |
| `r1cs`, `circuit`, `csc` | sparse matrices and the two circuits over them |
| `hash`, `pow`, `transcript`, `challenger`, `fs_count` | hashes, proof of work, transcript encoding and the challengers |
| `lincheck`, `lincheck_laws`, `lincheck_soundness`, `last_rho` | prover and verifier, completeness, what becomes of a changed proof and of a false claim, the early witness fold |
| `gpu`, `urm`, `merkle`, `cpu_keepalive`, `gaptime`, `topology` | decisions about the GPU, the spin threads, timing and the thread pool |
| `par` | the calls into the thread pool |

The hashes come from `sha2` and `blake3` and the parallel loops from `rayon`. What is
believed of them stands in the contracts of the `external_body` functions of `hash` and
`par`; nothing else is taken without proof.

`app/` is ordinary Rust around the library: threads, environment switches, files under
`/sys`, the Metal device and the serialised form of a proof.
