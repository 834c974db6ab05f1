//! Seeded deterministic randomness.
//!
//! A pseudo-random stream initialized solely from the 32 bytes of a seed
//! digest, used only where the allocation rules need a reproducible
//! tie-break.  The stream is the splitmix64 generator: a counter advanced by
//! a fixed increment, whose output is the counter passed through a fixed
//! bit-mixing function.  Same seed bytes, same draws — on every run and
//! every platform; no clock, process id or container iteration order is
//! involved.

use vstd::prelude::*;
use vstd::wrapping::u64_specs;

verus! {

/// The additive constant of the splitmix64 counter.
pub const STREAM_INCREMENT: u64 = 0x9E3779B97F4A7C15;

/// First multiplier of the splitmix64 output mix.
pub const MIX_FACTOR_A: u64 = 0xBF58476D1CE4E5B9;

/// Second multiplier of the splitmix64 output mix.
pub const MIX_FACTOR_B: u64 = 0x94D049BB133111EB;

/// A reproducible seed: the 32 digest bytes derived from the
/// operator-supplied seed string.
#[derive(Clone, Copy, Debug)]
pub struct Seed {
    pub bytes: [u8; 32],
}

/// The 8 bytes starting at `off`, read as a little-endian word.
pub open spec fn word_of(b: Seq<u8>, off: int) -> u64 {
    (b[off] + b[off + 1] * 0x100 + b[off + 2] * 0x1_0000 + b[off + 3] * 0x100_0000 + b[off + 4]
        * 0x1_0000_0000 + b[off + 5] * 0x100_0000_0000 + b[off + 6] * 0x1_0000_0000_0000 + b[off
        + 7] * 0x100_0000_0000_0000) as u64
}

/// The initial generator state: the four words of the digest folded with xor.
pub open spec fn seed_state(seed: Seed) -> u64 {
    word_of(seed.bytes@, 0) ^ word_of(seed.bytes@, 8) ^ word_of(seed.bytes@, 16) ^ word_of(
        seed.bytes@,
        24,
    )
}

/// One advance of the splitmix64 counter.
pub open spec fn stream_step(state: u64) -> u64 {
    u64_specs::wrapping_add(state, STREAM_INCREMENT)
}

/// The splitmix64 output mix of a counter value.
pub open spec fn mix(z0: u64) -> u64 {
    let z1 = u64_specs::wrapping_mul(z0 ^ (z0 >> 30), MIX_FACTOR_A);
    let z2 = u64_specs::wrapping_mul(z1 ^ (z1 >> 27), MIX_FACTOR_B);
    z2 ^ (z2 >> 31)
}

/// What `pick_k` draws: up to `k` entries of `pool`, without replacement,
/// each draw indexed by the next stream output modulo the entries left.
/// Returns the drawn entries in draw order, and the state after.
pub open spec fn spec_pick(state: u64, pool: Seq<usize>, k: int) -> (Seq<usize>, u64)
    decreases k,
{
    if k <= 0 || pool.len() == 0 {
        (Seq::empty(), state)
    } else {
        let s2 = stream_step(state);
        let idx = (mix(s2) as int) % (pool.len() as int);
        let tail = spec_pick(s2, pool.remove(idx), k - 1);
        (seq![pool[idx]] + tail.0, tail.1)
    }
}

pub proof fn lemma_spec_pick_len(state: u64, pool: Seq<usize>, k: int)
    ensures
        spec_pick(state, pool, k).0.len() == if k <= pool.len() as int {
            if k <= 0 {
                0int
            } else {
                k
            }
        } else {
            pool.len() as int
        },
    decreases k,
{
    if k > 0 && pool.len() > 0 {
        let s2 = stream_step(state);
        let idx = (mix(s2) as int) % (pool.len() as int);
        lemma_spec_pick_len(s2, pool.remove(idx), k - 1);
    }
}

/// Every drawn entry is an entry of the pool.
pub proof fn lemma_spec_pick_elems(state: u64, pool: Seq<usize>, k: int)
    ensures
        forall|j: int|
            0 <= j < spec_pick(state, pool, k).0.len() ==> pool.contains(
                #[trigger] spec_pick(state, pool, k).0[j],
            ),
    decreases k,
{
    if k > 0 && pool.len() > 0 {
        let s2 = stream_step(state);
        let idx = (mix(s2) as int) % (pool.len() as int);
        let rest = pool.remove(idx);
        lemma_spec_pick_elems(s2, rest, k - 1);
        assert forall|j: int|
            0 <= j < spec_pick(state, pool, k).0.len() implies pool.contains(
            #[trigger] spec_pick(state, pool, k).0[j],
        ) by {
            if j == 0 {
                assert(pool[idx] == spec_pick(state, pool, k).0[0]);
            } else {
                let e = spec_pick(state, pool, k).0[j];
                assert(spec_pick(s2, rest, k - 1).0[j - 1] == e);
                assert(rest.contains(e));
                let ri = choose|ri: int| 0 <= ri < rest.len() && rest[ri] == e;
                if ri < idx {
                    assert(pool[ri] == e);
                } else {
                    assert(pool[ri + 1] == e);
                }
            }
        }
    }
}

/// The seeded deterministic randomness source: a splitmix64 stream keyed by
/// the seed digest.
pub struct SeededDeterministicRandomness {
    pub state: u64,
}

impl SeededDeterministicRandomness {
    /// Start the stream from the folded words of the seed digest.
    pub fn new(seed: &Seed) -> (r: Self)
        ensures
            r.state == seed_state(*seed),
    {
        let w0 = word_at(&seed.bytes, 0);
        let w1 = word_at(&seed.bytes, 8);
        let w2 = word_at(&seed.bytes, 16);
        let w3 = word_at(&seed.bytes, 24);
        SeededDeterministicRandomness { state: w0 ^ w1 ^ w2 ^ w3 }
    }

    /// The next stream output.
    pub fn next_u64(&mut self) -> (r: u64)
        ensures
            final(self).state == stream_step(old(self).state),
            r == mix(final(self).state),
    {
        self.state = self.state.wrapping_add(STREAM_INCREMENT);
        let z0 = self.state;
        let z1 = (z0 ^ (z0 >> 30)).wrapping_mul(MIX_FACTOR_A);
        let z2 = (z1 ^ (z1 >> 27)).wrapping_mul(MIX_FACTOR_B);
        z2 ^ (z2 >> 31)
    }

    /// Draw up to `k` entries of `pool` without replacement.
    pub fn pick_k(&mut self, pool: Vec<usize>, k: usize) -> (res: Vec<usize>)
        ensures
            res@ == spec_pick(old(self).state, pool@, k as int).0,
            final(self).state == spec_pick(old(self).state, pool@, k as int).1,
    {
        let ghost s0 = self.state;
        let ghost p0 = pool@;
        let mut pool = pool;
        let mut res: Vec<usize> = Vec::new();
        let mut remaining = k;
        while remaining > 0 && pool.len() > 0
            invariant
                spec_pick(s0, p0, k as int).0 == res@ + spec_pick(
                    self.state,
                    pool@,
                    remaining as int,
                ).0,
                spec_pick(s0, p0, k as int).1 == spec_pick(self.state, pool@, remaining as int).1,
            decreases remaining,
        {
            let ghost st = self.state;
            let ghost pl = pool@;
            let r = self.next_u64();
            let len64 = pool.len() as u64;
            let idx = (r % len64) as usize;
            proof {
                assert(idx as int == (mix(stream_step(st)) as int) % (pl.len() as int));
            }
            let chosen = pool.remove(idx);
            let ghost orv = res@;
            res.push(chosen);
            remaining = remaining - 1;
            proof {
                assert(spec_pick(st, pl, remaining as int + 1).0 == seq![chosen] + spec_pick(
                    self.state,
                    pool@,
                    remaining as int,
                ).0);
                assert(res@ + spec_pick(self.state, pool@, remaining as int).0 =~= orv + (
                seq![chosen] + spec_pick(self.state, pool@, remaining as int).0));
            }
        }
        proof {
            assert(spec_pick(self.state, pool@, remaining as int).0 =~= Seq::<usize>::empty());
            assert(res@ + Seq::<usize>::empty() =~= res@);
        }
        res
    }
}

/// The little-endian word at `off` of a digest.
fn word_at(bytes: &[u8; 32], off: usize) -> (r: u64)
    requires
        off + 8 <= 32,
    ensures
        r == word_of(bytes@, off as int),
{
    (bytes[off] as u64) + (bytes[off + 1] as u64) * 0x100 + (bytes[off + 2] as u64) * 0x1_0000 + (
    bytes[off + 3] as u64) * 0x100_0000 + (bytes[off + 4] as u64) * 0x1_0000_0000 + (bytes[off
        + 5] as u64) * 0x100_0000_0000 + (bytes[off + 6] as u64) * 0x1_0000_0000_0000 + (bytes[off
        + 7] as u64) * 0x100_0000_0000_0000
}

} // verus!
