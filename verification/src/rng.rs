//! Deterministic pseudo-random sources.
//!
//! Per-sample randomness derives only from a 64-bit mix of the global seed and
//! the pixel and sample coordinates, so identical inputs always produce
//! identical rays — across runs, machines and thread counts.

use vstd::prelude::*;
use vstd::string::StringSliceAdditionalSpecFns;
use vstd::wrapping::u64_specs;

verus! {

/// One step of the FNV-1a byte hash.
pub open spec fn spec_fnv_step(h: u64, b: u8) -> u64 {
    u64_specs::wrapping_mul((h ^ (b as u64)), 0x100000001b3u64)
}

/// FNV-1a over a byte sequence, from the given basis.
pub open spec fn spec_fnv(basis: u64, bytes: Seq<u8>) -> u64
    decreases bytes.len(),
{
    if bytes.len() == 0 {
        basis
    } else {
        spec_fnv(spec_fnv_step(basis, bytes[0]), bytes.drop_first())
    }
}

/// FNV-1a hash of a byte slice from an arbitrary basis.
pub fn fnv_from(basis: u64, bytes: &[u8]) -> (r: u64)
    ensures
        r == spec_fnv(basis, bytes@),
{
    let mut h = basis;
    let n = bytes.len();
    let mut i: usize = 0;
    proof {
        assert(bytes@.skip(0) =~= bytes@);
    }
    while i < n
        invariant
            i <= n,
            n == bytes@.len(),
            spec_fnv(basis, bytes@) == spec_fnv(h, bytes@.skip(i as int)),
        decreases n - i,
    {
        proof {
            assert(bytes@.skip(i as int).drop_first() =~= bytes@.skip(i as int + 1));
        }
        h = (h ^ (bytes[i] as u64)).wrapping_mul(0x100000001b3);
        i += 1;
    }
    proof {
        assert(bytes@.skip(n as int) =~= Seq::<u8>::empty());
    }
    h
}

/// The FNV-1a offset basis.
pub const FNV_BASIS: u64 = 0xcbf29ce484222325;

/// The z-jitter word for a node: a pure function of the seed and the id bytes.
pub open spec fn spec_jitter_hash(seed: u64, id_bytes: Seq<u8>) -> u64 {
    spec_fnv(FNV_BASIS ^ seed, id_bytes)
}

/// The z-jitter offset in Q16.16, always inside [-0.5, 0.5] in real units.
pub open spec fn spec_jitter_q(seed: u64, id_bytes: Seq<u8>) -> int {
    (spec_jitter_hash(seed, id_bytes) % 65537) - 32768
}

/// Deterministic z-jitter for a node id under a seed.
pub fn jitter_q(seed: u64, id: &str) -> (r: i64)
    ensures
        r == spec_jitter_q(seed, id.spec_bytes()),
        -32768 <= r <= 32768,
{
    let h = fnv_from(FNV_BASIS ^ seed, id.as_bytes());
    (h % 65537) as i64 - 32768
}

/// One pastel color channel from one hash byte, in Q16.16: 0.2 + 0.8 * b/255.
pub open spec fn spec_channel_q(b: u64) -> int {
    13107 + (52429 * (b % 256)) / 255
}

/// The stable, seed-independent color word for an id's raw bytes.
pub open spec fn spec_color_hash(bytes: Seq<u8>) -> u64 {
    spec_fnv(FNV_BASIS, bytes)
}

/// A pastel color channel is always inside [0.2, 1.0] in real units.
pub proof fn lemma_channel_q_bounds(b: u64)
    ensures
        13107 <= spec_channel_q(b) <= 65536,
{
}

/// The per-pixel, per-sample seed mix: a 64-bit finalizer over (seed, x, y, s).
pub open spec fn spec_hash_seed(seed: u64, x: u32, y: u32, sample: u32) -> u64 {
    let v0 = seed ^ ((x as u64) << 32u64) ^ ((y as u64) << 16u64) ^ (sample as u64);
    let v1 = u64_specs::wrapping_add(v0, 0x9e3779b97f4a7c15u64);
    let v2 = u64_specs::wrapping_mul((v1 ^ (v1 >> 30u64)), 0xbf58476d1ce4e5b9u64);
    let v3 = u64_specs::wrapping_mul((v2 ^ (v2 >> 27u64)), 0x94d049bb133111ebu64);
    v3 ^ (v3 >> 31u64)
}

/// Mix the global seed with pixel and sample coordinates.
pub fn hash_seed(seed: u64, x: u32, y: u32, sample: u32) -> (r: u64)
    ensures
        r == spec_hash_seed(seed, x, y, sample),
{
    let mut v = seed ^ ((x as u64) << 32) ^ ((y as u64) << 16) ^ (sample as u64);
    v = v.wrapping_add(0x9e3779b97f4a7c15);
    v = (v ^ (v >> 30)).wrapping_mul(0xbf58476d1ce4e5b9);
    v = (v ^ (v >> 27)).wrapping_mul(0x94d049bb133111eb);
    v ^ (v >> 31)
}

/// A 64-bit linear congruential generator.
pub struct Rng {
    pub state: u64,
}

/// A zero seed is replaced by a fixed non-zero constant.
pub open spec fn spec_rng_init(seed: u64) -> u64 {
    if seed == 0 {
        0xdeadbeefcafebabeu64
    } else {
        seed
    }
}

/// One generator step.
pub open spec fn spec_rng_next(state: u64) -> u64 {
    u64_specs::wrapping_add(u64_specs::wrapping_mul(state, 6364136223846793005u64), 1u64)
}

impl Rng {
    pub fn new(seed: u64) -> (r: Rng)
        ensures
            r.state == spec_rng_init(seed),
    {
        let state = if seed == 0 {
            0xdeadbeefcafebabe
        } else {
            seed
        };
        Rng { state }
    }

    /// Advance the generator and return the top 32 bits of the new state.
    pub fn next_u32(&mut self) -> (r: u32)
        ensures
            final(self).state == spec_rng_next(old(self).state),
            r == spec_rng_next(old(self).state) >> 32,
    {
        self.state = self.state.wrapping_mul(6364136223846793005).wrapping_add(1);
        let s = self.state;
        proof {
            assert((s >> 32) <= 0xffff_ffffu64) by (bit_vector);
        }
        (s >> 32) as u32
    }

    /// A fixed-point sample in [0, 1): the top 16 bits of the next draw.
    pub fn next_unit_q(&mut self) -> (r: i64)
        ensures
            final(self).state == spec_rng_next(old(self).state),
            r == (spec_rng_next(old(self).state) >> 32) >> 16,
            0 <= r < 65536,
    {
        let v = self.next_u32();
        proof {
            assert((v >> 16) < 65536u32) by (bit_vector);
        }
        (v >> 16) as i64
    }

    /// A fixed-point sample in [-1, 1): 2 * unit - 1.
    pub fn next_signed_q(&mut self) -> (r: i64)
        ensures
            final(self).state == spec_rng_next(old(self).state),
            r == 2 * (((spec_rng_next(old(self).state) >> 32) >> 16) as int) - 65536,
            -65536 <= r < 65536,
    {
        let v = self.next_unit_q();
        2 * v - 65536
    }
}

} // verus!
