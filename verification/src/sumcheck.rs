//! Rounds of a product sumcheck over two tables, binding the top index bit first.

use crate::block_major::bind_top;
use crate::circuit::SUMCHECK_PAR_THRESHOLD;
use crate::f128_slice::{bind_both_and_msg_split, bind_split_half, fmix, msg_split_half};
use crate::field::{fadd, fmul, F128};
use crate::fold::{chunk_len_at, div_up, join_chunks, lemma_chunk_place, pool_width};
use crate::par::{par_map, pool_threads};
use crate::sums::{chunk_count, chunk_len, fsum, lemma_sum_chunks, lemma_sum_ext};
use vstd::prelude::*;
use vstd::slice::slice_subrange;

verus! {

/// Term `i` of `q(1)`: the product of the two high entries.
pub open spec fn term_one(c: Seq<F128>, z: Seq<F128>, i: int) -> F128 {
    fmul(c[c.len() / 2 + i], z[c.len() / 2 + i])
}

/// Term `i` of `q(inf)`: the product of the two differences.
pub open spec fn term_inf(c: Seq<F128>, z: Seq<F128>, i: int) -> F128 {
    fmul(fadd(c[c.len() / 2 + i], c[i]), fadd(z[c.len() / 2 + i], z[i]))
}

/// The message of a round: `q(1)` and `q(inf)` over the top-bit split.
pub open spec fn round_msg(c: Seq<F128>, z: Seq<F128>) -> (F128, F128) {
    (
        fsum((c.len() / 2) as nat, |i: int| term_one(c, z, i)),
        fsum((c.len() / 2) as nat, |i: int| term_inf(c, z, i)),
    )
}

/// Slots per task of a round over `n` slots on a pool of `threads` threads: one task for
/// each thread, and at least four slots each.
pub fn sumcheck_chunk_on(n: usize, threads: usize) -> (c: usize)
    ensures
        c == ({
            let per = chunk_count(n as nat, pool_width(threads as int));
            if per < 4 {
                4
            } else {
                per
            }
        }),
        c <= n || c == 4,
{
    let p: usize = if threads < 1 {
        1
    } else {
        threads
    };
    let c: usize = div_up(n, p);
    if c < 4 {
        4
    } else {
        c
    }
}

/// Slots per task of a round over `n` slots on the current pool, whose width depends on
/// the machine: at least four, and no more than there are.
pub fn sumcheck_chunk(n: usize) -> (c: usize)
    ensures
        c >= 4,
        c <= n || c == 4,
{
    sumcheck_chunk_on(n, pool_threads())
}

/// The part of a round's message that slots `lo .. lo + len` contribute.
fn eval_chunk(c: &[F128], z: &[F128], half: usize, lo: usize, len: usize) -> (msg: (F128, F128))
    requires
        c@.len() == z@.len(),
        half == c@.len() / 2,
        lo + len <= half,
    ensures
        msg.0 == fsum(len as nat, |j: int| term_one(c@, z@, lo + j)),
        msg.1 == fsum(len as nat, |j: int| term_inf(c@, z@, lo + j)),
{
    let n: usize = c.len();
    let chi: &[F128] = slice_subrange(c, half + lo, half + lo + len);
    let clo: &[F128] = slice_subrange(c, lo, lo + len);
    let zhi: &[F128] = slice_subrange(z, half + lo, half + lo + len);
    let zlo: &[F128] = slice_subrange(z, lo, lo + len);
    let msg: (F128, F128) = msg_split_half(chi, clo, zhi, zlo, len);
    proof {
        lemma_sum_ext(
            len as nat,
            |i: int| fmul(chi@[i], zhi@[i]),
            |j: int| term_one(c@, z@, lo + j),
        );
        lemma_sum_ext(
            len as nat,
            |i: int| fmul(fadd(chi@[i], clo@[i]), fadd(zhi@[i], zlo@[i])),
            |j: int| term_inf(c@, z@, lo + j),
        );
    }
    msg
}

/// Adds up the messages of the chunks.
fn add_messages(parts: &Vec<(F128, F128)>) -> (msg: (F128, F128))
    ensures
        msg.0 == fsum(parts@.len(), |t: int| parts@[t].0),
        msg.1 == fsum(parts@.len(), |t: int| parts@[t].1),
{
    let mut e1: F128 = F128::zero();
    let mut einf: F128 = F128::zero();
    let n: usize = parts.len();
    let mut t: usize = 0;
    while t < n
        invariant
            t <= n,
            n == parts@.len(),
            e1 == fsum(t as nat, |t: int| parts@[t].0),
            einf == fsum(t as nat, |t: int| parts@[t].1),
        decreases n - t,
    {
        e1 = e1 + parts[t].0;
        einf = einf + parts[t].1;
        t = t + 1;
    }
    (e1, einf)
}

/// The message of one round over `(c, z)`. Large rounds are cut into chunks; the
/// chunks' messages add up to the same field elements however they are cut.
pub fn sumcheck_round_eval_par(c: &[F128], z: &[F128]) -> (msg: (F128, F128))
    requires
        c@.len() == z@.len(),
    ensures
        msg == round_msg(c@, z@),
{
    let half: usize = c.len() / 2;
    if half < SUMCHECK_PAR_THRESHOLD {
        let msg: (F128, F128) = eval_chunk(c, z, half, 0, half);
        proof {
            lemma_sum_ext(
                half as nat,
                |j: int| term_one(c@, z@, 0 + j),
                |i: int| term_one(c@, z@, i),
            );
            lemma_sum_ext(
                half as nat,
                |j: int| term_inf(c@, z@, 0 + j),
                |i: int| term_inf(c@, z@, i),
            );
        }
        return msg;
    }
    let chunk: usize = sumcheck_chunk(half);
    let n_chunks: usize = div_up(half, chunk);
    let eval = |t: usize| -> (r: (F128, F128))
        requires
            n_chunks > t,
            chunk > 0,
            n_chunks == chunk_count(half as nat, chunk as nat),
            c@.len() == z@.len(),
            half == c@.len() / 2,
        ensures
            r.0 == fsum(
                chunk_len(half as nat, chunk as nat, t as int),
                |j: int| term_one(c@, z@, t * chunk + j),
            ),
            r.1 == fsum(
                chunk_len(half as nat, chunk as nat, t as int),
                |j: int| term_inf(c@, z@, t * chunk + j),
            ),
        {
            let len: usize = chunk_len_at(half, chunk, t);
            proof {
                assert(t * chunk >= 0) by (nonlinear_arith);
            }
            eval_chunk(c, z, half, t * chunk, len)
        };
    let parts: Vec<(F128, F128)> = par_map(n_chunks, eval);
    let msg: (F128, F128) = add_messages(&parts);
    proof {
        let (h, d) = (half as nat, chunk as nat);
        let f = |i: int| term_one(c@, z@, i);
        let g = |i: int| term_inf(c@, z@, i);
        lemma_sum_chunks(h, d, f);
        lemma_sum_chunks(h, d, g);
        let pf = |t: int| fsum(chunk_len(h, d, t), |j: int| f(t * d + j));
        let pg = |t: int| fsum(chunk_len(h, d, t), |j: int| g(t * d + j));
        assert forall|t: int| 0 <= t < n_chunks implies #[trigger] parts@[t].0 == pf(t)
            && parts@[t].1 == pg(t) by {
            assert(call_ensures(eval, (t as usize,), parts@[t]));
            lemma_sum_ext(
                chunk_len(h, d, t),
                |j: int| term_one(c@, z@, t * chunk + j),
                |j: int| f(t * d + j),
            );
            lemma_sum_ext(
                chunk_len(h, d, t),
                |j: int| term_inf(c@, z@, t * chunk + j),
                |j: int| g(t * d + j),
            );
        }
        lemma_sum_ext(n_chunks as nat, |t: int| parts@[t].0, pf);
        lemma_sum_ext(n_chunks as nat, |t: int| parts@[t].1, pg);
    }
    msg
}

/// Entries `at .. at + len` of a table.
fn copy_run(v: &[F128], at: usize, len: usize) -> (out: Vec<F128>)
    requires
        at + len <= v@.len(),
    ensures
        out@.len() == len,
        forall|i: int| 0 <= i < len ==> #[trigger] out@[i] == v@[at + i],
{
    let n: usize = v.len();
    let mut out: Vec<F128> = Vec::with_capacity(len);
    let mut i: usize = 0;
    while i < len
        invariant
            i <= len,
            n == v@.len(),
            at + len <= n,
            out@.len() == i,
            forall|j: int| 0 <= j < i ==> #[trigger] out@[j] == v@[at + j],
        decreases len - i,
    {
        out.push(v[at + i]);
        i = i + 1;
    }
    out
}

/// Entries `lo .. lo + len` of the bound table.
fn bind_chunk(v: &[F128], half: usize, lo: usize, len: usize, r: F128) -> (out: Vec<F128>)
    requires
        half == v@.len() / 2,
        lo + len <= half,
    ensures
        out@.len() == len,
        forall|i: int| 0 <= i < len ==> #[trigger] out@[i] == bind_top(v@, r)[lo + i],
{
    let n: usize = v.len();
    let mut out: Vec<F128> = copy_run(v, lo, len);
    let hi: &[F128] = slice_subrange(v, half + lo, half + lo + len);
    bind_split_half(out.as_mut_slice(), hi, r);
    proof {
        assert forall|i: int| 0 <= i < len implies #[trigger] out@[i] == bind_top(v@, r)[lo + i] by {
            assert(bind_top(v@, r)[lo + i] == fmix(v@[lo + i], v@[lo + i + half], r));
        }
    }
    out
}

/// Binds the top remaining variable of `v` at `r`, halving the table.
pub fn sumcheck_bind_top_in_place_par(v: &mut Vec<F128>, r: F128)
    ensures
        final(v)@ == bind_top(old(v)@, r),
{
    let half: usize = v.len() / 2;
    let src: &[F128] = v.as_slice();
    let out: Vec<F128> = if half < SUMCHECK_PAR_THRESHOLD {
        bind_chunk(src, half, 0, half, r)
    } else {
        let chunk: usize = sumcheck_chunk(half);
        let n_chunks: usize = div_up(half, chunk);
        let bind = |t: usize| -> (o: Vec<F128>)
            requires
                n_chunks > t,
                chunk > 0,
                n_chunks == chunk_count(half as nat, chunk as nat),
                half == src@.len() / 2,
            ensures
                o@.len() == chunk_len(half as nat, chunk as nat, t as int),
                forall|i: int|
                    0 <= i < o@.len() ==> #[trigger] o@[i] == bind_top(src@, r)[t * chunk + i],
            {
                let len: usize = chunk_len_at(half, chunk, t);
                proof {
                    assert(t * chunk >= 0) by (nonlinear_arith);
                }
                bind_chunk(src, half, t * chunk, len, r)
            };
        let parts: Vec<Vec<F128>> = par_map(n_chunks, bind);
        proof {
            assert forall|t: int| 0 <= t < n_chunks implies #[trigger] parts@[t]@.len()
                == chunk_len(half as nat, chunk as nat, t) by {
                assert(call_ensures(bind, (t as usize,), parts@[t]));
            }
        }
        let joined: Vec<F128> = join_chunks(&parts, half, chunk);
        proof {
            assert forall|i: int| 0 <= i < half implies #[trigger] joined@[i] == bind_top(
                src@,
                r,
            )[i] by {
                lemma_chunk_place(half as nat, chunk as nat, i);
                let t = i / (chunk as int);
                assert(call_ensures(bind, (t as usize,), parts@[t]));
                assert(parts@[t]@[i % (chunk as int)] == bind_top(src@, r)[t * chunk + i % (
                chunk as int)]);
            }
        }
        joined
    };
    proof {
        assert(out@ =~= bind_top(old(v)@, r));
    }
    *v = out;
}

/// One chunk of a fused round: the bound low and high halves of both tables, and the
/// chunk's part of the next message.
struct BoundChunk {
    c0: Vec<F128>,
    c1: Vec<F128>,
    z0: Vec<F128>,
    z1: Vec<F128>,
    msg: (F128, F128),
}

impl BoundChunk {
    /// The chunk holds slots `lo .. lo + len` of the bound tables `bc` and `bz`, and
    /// the message terms of those slots.
    spec fn holds(&self, bc: Seq<F128>, bz: Seq<F128>, lo: int, len: int) -> bool {
        &&& self.c0@.len() == len
        &&& self.c1@.len() == len
        &&& self.z0@.len() == len
        &&& self.z1@.len() == len
        &&& forall|i: int| 0 <= i < len ==> #[trigger] self.c0@[i] == bc[lo + i]
        &&& forall|i: int| 0 <= i < len ==> #[trigger] self.c1@[i] == bc[bc.len() / 2 + lo + i]
        &&& forall|i: int| 0 <= i < len ==> #[trigger] self.z0@[i] == bz[lo + i]
        &&& forall|i: int| 0 <= i < len ==> #[trigger] self.z1@[i] == bz[bc.len() / 2 + lo + i]
        &&& self.msg.0 == fsum(len as nat, |j: int| term_one(bc, bz, lo + j))
        &&& self.msg.1 == fsum(len as nat, |j: int| term_inf(bc, bz, lo + j))
    }
}

/// Binds slots `lo .. lo + len` of both halves of both tables and evaluates them.
fn bind_both_chunk(
    comb: &[F128],
    z: &[F128],
    half: usize,
    half2: usize,
    lo: usize,
    len: usize,
    r: F128,
) -> (out: BoundChunk)
    requires
        comb@.len() == z@.len(),
        comb@.len() == 4 * half2,
        half == 2 * half2,
        lo + len <= half2,
    ensures
        out.holds(bind_top(comb@, r), bind_top(z@, r), lo as int, len as int),
{
    let n: usize = comb.len();
    let mut c0: Vec<F128> = copy_run(comb, lo, len);
    let mut c1: Vec<F128> = copy_run(comb, half2 + lo, len);
    let c2: Vec<F128> = copy_run(comb, half + lo, len);
    let c3: Vec<F128> = copy_run(comb, half + half2 + lo, len);
    let mut z0: Vec<F128> = copy_run(z, lo, len);
    let mut z1: Vec<F128> = copy_run(z, half2 + lo, len);
    let z2: Vec<F128> = copy_run(z, half + lo, len);
    let z3: Vec<F128> = copy_run(z, half + half2 + lo, len);
    let ghost (a0, a1, b0, b1) = (c0@, c1@, z0@, z1@);
    let msg: (F128, F128) = bind_both_and_msg_split(
        c0.as_mut_slice(),
        c1.as_mut_slice(),
        c2.as_slice(),
        c3.as_slice(),
        z0.as_mut_slice(),
        z1.as_mut_slice(),
        z2.as_slice(),
        z3.as_slice(),
        r,
        len,
    );
    proof {
        let (bc, bz) = (bind_top(comb@, r), bind_top(z@, r));
        assert(bc.len() == half && bz.len() == half);
        assert forall|i: int| 0 <= i < len implies #[trigger] c0@[i] == bc[lo + i] by {
            assert(a0[i] == comb@[lo + i] && c2@[i] == comb@[half + lo + i]);
            assert(bc[lo + i] == fmix(comb@[lo + i], comb@[lo + i + half], r));
        }
        assert forall|i: int| 0 <= i < len implies #[trigger] c1@[i] == bc[half2 + lo + i] by {
            assert(a1[i] == comb@[half2 + lo + i] && c3@[i] == comb@[half + half2 + lo + i]);
            assert(bc[half2 + lo + i] == fmix(
                comb@[half2 + lo + i],
                comb@[half2 + lo + i + half],
                r,
            ));
        }
        assert forall|i: int| 0 <= i < len implies #[trigger] z0@[i] == bz[lo + i] by {
            assert(b0[i] == z@[lo + i] && z2@[i] == z@[half + lo + i]);
            assert(bz[lo + i] == fmix(z@[lo + i], z@[lo + i + half], r));
        }
        assert forall|i: int| 0 <= i < len implies #[trigger] z1@[i] == bz[half2 + lo + i] by {
            assert(b1[i] == z@[half2 + lo + i] && z3@[i] == z@[half + half2 + lo + i]);
            assert(bz[half2 + lo + i] == fmix(z@[half2 + lo + i], z@[half2 + lo + i + half], r));
        }
        lemma_sum_ext(
            len as nat,
            |i: int| fmul(c1@[i], z1@[i]),
            |j: int| term_one(bc, bz, lo + j),
        );
        lemma_sum_ext(
            len as nat,
            |i: int| fmul(fadd(c1@[i], c0@[i]), fadd(z1@[i], z0@[i])),
            |j: int| term_inf(bc, bz, lo + j),
        );
    }
    BoundChunk { c0, c1, z0, z1, msg }
}

/// Binds the top variable of both tables at `r` and returns the message of the next
/// round over the bound tables, reading the data once.
pub fn sumcheck_bind_both_and_eval_next(
    comb: &mut Vec<F128>,
    z: &mut Vec<F128>,
    r: F128,
) -> (msg: (F128, F128))
    requires
        old(comb)@.len() == old(z)@.len(),
        old(comb)@.len() % 4 == 0,
        old(comb)@.len() >= 4,
    ensures
        final(comb)@ == bind_top(old(comb)@, r),
        final(z)@ == bind_top(old(z)@, r),
        msg == round_msg(final(comb)@, final(z)@),
{
    let half: usize = comb.len() / 2;
    let half2: usize = half / 2;
    let ghost (bc, bz) = (bind_top(comb@, r), bind_top(z@, r));
    let cs: &[F128] = comb.as_slice();
    let zs: &[F128] = z.as_slice();
    let chunk: usize = if half < SUMCHECK_PAR_THRESHOLD {
        half2
    } else {
        sumcheck_chunk(half2)
    };
    let n_chunks: usize = div_up(half2, chunk);
    let bind = |t: usize| -> (o: BoundChunk)
        requires
            n_chunks > t,
            chunk > 0,
            n_chunks == chunk_count(half2 as nat, chunk as nat),
            cs@.len() == zs@.len(),
            cs@.len() == 4 * half2,
            half == 2 * half2,
        ensures
            o.holds(
                bind_top(cs@, r),
                bind_top(zs@, r),
                t * chunk,
                chunk_len(half2 as nat, chunk as nat, t as int) as int,
            ),
        {
            let len: usize = chunk_len_at(half2, chunk, t);
            proof {
                assert(t * chunk >= 0) by (nonlinear_arith);
            }
            bind_both_chunk(cs, zs, half, half2, t * chunk, len, r)
        };
    let parts: Vec<BoundChunk> = if half < SUMCHECK_PAR_THRESHOLD {
        proof {
            let h = half2 as int;
            assert((h + h - 1) / h == 1) by (nonlinear_arith)
                requires
                    h >= 1,
            ;
        }
        vec![bind(0)]
    } else {
        par_map(n_chunks, bind)
    };
    proof {
        assert forall|t: int| 0 <= t < n_chunks implies (#[trigger] parts@[t]).holds(
            bc,
            bz,
            t * chunk,
            chunk_len(half2 as nat, chunk as nat, t) as int,
        ) by {
            if half >= SUMCHECK_PAR_THRESHOLD {
                assert(call_ensures(bind, (t as usize,), parts@[t]));
            }
        }
    }
    let (new_comb, new_z, msg) = gather_chunks(parts, Ghost(bc), Ghost(bz), half2, chunk);
    *comb = new_comb;
    *z = new_z;
    msg
}

/// Puts the chunks of a fused round together.
fn gather_chunks(
    parts: Vec<BoundChunk>,
    Ghost(bc): Ghost<Seq<F128>>,
    Ghost(bz): Ghost<Seq<F128>>,
    half2: usize,
    chunk: usize,
) -> (out: (Vec<F128>, Vec<F128>, (F128, F128)))
    requires
        chunk > 0,
        bc.len() == bz.len(),
        bc.len() == 2 * half2,
        parts@.len() == chunk_count(half2 as nat, chunk as nat),
        forall|t: int|
            0 <= t < parts@.len() ==> (#[trigger] parts@[t]).holds(
                bc,
                bz,
                t * chunk,
                chunk_len(half2 as nat, chunk as nat, t) as int,
            ),
    ensures
        out.0@ == bc,
        out.1@ == bz,
        out.2 == round_msg(bc, bz),
{
    let n: usize = parts.len();
    let mut c0: Vec<Vec<F128>> = Vec::new();
    let mut c1: Vec<Vec<F128>> = Vec::new();
    let mut z0: Vec<Vec<F128>> = Vec::new();
    let mut z1: Vec<Vec<F128>> = Vec::new();
    let mut msgs: Vec<(F128, F128)> = Vec::new();
    let ghost held = parts@;
    let mut rest: Vec<BoundChunk> = parts;
    let mut t: usize = 0;
    while t < n
        invariant
            t <= n,
            n == held.len(),
            rest@.len() == n - t,
            forall|u: int| 0 <= u < n - t ==> #[trigger] rest@[u] == held[t + u],
            c0@.len() == t,
            c1@.len() == t,
            z0@.len() == t,
            z1@.len() == t,
            msgs@.len() == t,
            forall|u: int| 0 <= u < t ==> #[trigger] c0@[u] == held[u].c0,
            forall|u: int| 0 <= u < t ==> #[trigger] c1@[u] == held[u].c1,
            forall|u: int| 0 <= u < t ==> #[trigger] z0@[u] == held[u].z0,
            forall|u: int| 0 <= u < t ==> #[trigger] z1@[u] == held[u].z1,
            forall|u: int| 0 <= u < t ==> #[trigger] msgs@[u] == held[u].msg,
        decreases n - t,
    {
        let part: BoundChunk = rest.remove(0);
        c0.push(part.c0);
        c1.push(part.c1);
        z0.push(part.z0);
        z1.push(part.z1);
        msgs.push(part.msg);
        t = t + 1;
    }
    let msg: (F128, F128) = add_messages(&msgs);
    proof {
        let (h, d) = (half2 as nat, chunk as nat);
        let f = |i: int| term_one(bc, bz, i);
        let g = |i: int| term_inf(bc, bz, i);
        lemma_sum_chunks(h, d, f);
        lemma_sum_chunks(h, d, g);
        let pf = |t: int| fsum(chunk_len(h, d, t), |j: int| f(t * d + j));
        let pg = |t: int| fsum(chunk_len(h, d, t), |j: int| g(t * d + j));
        assert forall|t: int| 0 <= t < n implies #[trigger] msgs@[t].0 == pf(t) && msgs@[t].1 == pg(
            t,
        ) by {
            assert(held[t].holds(bc, bz, t * chunk, chunk_len(h, d, t) as int));
            lemma_sum_ext(
                chunk_len(h, d, t),
                |j: int| term_one(bc, bz, t * chunk + j),
                |j: int| f(t * d + j),
            );
            lemma_sum_ext(
                chunk_len(h, d, t),
                |j: int| term_inf(bc, bz, t * chunk + j),
                |j: int| g(t * d + j),
            );
        }
        lemma_sum_ext(n as nat, |t: int| msgs@[t].0, pf);
        lemma_sum_ext(n as nat, |t: int| msgs@[t].1, pg);
        assert forall|t: int| 0 <= t < n implies #[trigger] held[t].c0@.len() == chunk_len(h, d, t)
            && held[t].c1@.len() == chunk_len(h, d, t) && held[t].z0@.len() == chunk_len(h, d, t)
            && held[t].z1@.len() == chunk_len(h, d, t) by {
            assert(held[t].holds(bc, bz, t * chunk, chunk_len(h, d, t) as int));
        }
    }
    let mut comb: Vec<F128> = join_chunks(&c0, half2, chunk);
    let mut comb_hi: Vec<F128> = join_chunks(&c1, half2, chunk);
    let mut z: Vec<F128> = join_chunks(&z0, half2, chunk);
    let mut z_hi: Vec<F128> = join_chunks(&z1, half2, chunk);
    proof {
        assert forall|i: int| 0 <= i < half2 implies comb@[i] == bc[i] && comb_hi@[i] == bc[half2
            + i] && z@[i] == bz[i] && z_hi@[i] == bz[half2 + i] by {
            lemma_chunk_place(half2 as nat, chunk as nat, i);
            let (q, s) = (i / (chunk as int), i % (chunk as int));
            assert(held[q].holds(
                bc,
                bz,
                q * chunk,
                chunk_len(half2 as nat, chunk as nat, q) as int,
            ));
            assert(comb@[i] == c0@[q]@[s] && comb_hi@[i] == c1@[q]@[s]);
            assert(z@[i] == z0@[q]@[s] && z_hi@[i] == z1@[q]@[s]);
        }
    }
    comb.append(&mut comb_hi);
    z.append(&mut z_hi);
    proof {
        assert(comb@ =~= bc);
        assert(z@ =~= bz);
    }
    (comb, z, msg)
}

} // verus!
