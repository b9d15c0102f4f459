use vstd::prelude::*;
use crate::random::SEED_MASK;

verus! {

/// The splitmix64 output function.
pub open spec fn splitmix_finish(z: u64) -> u64 {
    let a = (((z ^ (z >> 30u64)) as nat * 0xbf58_476d_1ce4_e5b9nat) % 0x1_0000_0000_0000_0000nat) as u64;
    let b = (((a ^ (a >> 27u64)) as nat * 0x94d0_49bb_1331_11ebnat) % 0x1_0000_0000_0000_0000nat) as u64;
    b ^ (b >> 31u64)
}

/// The seed of the random stream of pixel `(u, v)` under `salt`: the upper
/// half of splitmix64 applied to the pixel coordinates and the salt, moved
/// off the one seed that would give a stream stuck at zero.
pub open spec fn seed_of(u: u32, v: u32, salt: u32) -> u32 {
    let z = ((u as nat * 0x1_0000_0000nat + v as nat) as u64) ^ ((salt as nat * 0x9e37_79b9nat) as u64);
    let s = (splitmix_finish(z) >> 32u64) as u32;
    if s == SEED_MASK {
        s ^ 1u32
    } else {
        s
    }
}

/// Seeds the random stream of one pixel from its coordinates and a salt.
pub fn pixel_seed(u: u32, v: u32, salt: u32) -> (r: u32)
    ensures
        r == seed_of(u, v, salt),
        r != SEED_MASK,
{
    let z0: u64 = (u as u64) * 0x1_0000_0000u64 + (v as u64);
    let k: u64 = (salt as u64) * 0x9e37_79b9u64;
    let z: u64 = z0 ^ k;
    let a: u64 = (z ^ (z >> 30u64)).wrapping_mul(0xbf58_476d_1ce4_e5b9u64);
    let b: u64 = (a ^ (a >> 27u64)).wrapping_mul(0x94d0_49bb_1331_11ebu64);
    let c: u64 = b ^ (b >> 31u64);
    let s: u32 = (c >> 32u64) as u32;
    let r: u32 = if s == SEED_MASK { s ^ 1u32 } else { s };
    proof {
        assert(s == SEED_MASK ==> (s ^ 1u32) != SEED_MASK) by (bit_vector);
    }
    r
}

/// The stream of every pixel starts from a non-zero state, so by
/// `lemma_xorshift_nonzero` it never reaches zero.
pub proof fn lemma_pixel_stream_nonzero(u: u32, v: u32, salt: u32)
    ensures
        (seed_of(u, v, salt) ^ SEED_MASK) != 0,
{
    let z = ((u as nat * 0x1_0000_0000nat + v as nat) as u64) ^ ((salt as nat * 0x9e37_79b9nat) as u64);
    let s = (splitmix_finish(z) >> 32u64) as u32;
    let m = SEED_MASK;
    assert(s == m ==> (s ^ 1u32) ^ m != 0) by (bit_vector);
    assert(s != m ==> s ^ m != 0) by (bit_vector);
}

} // verus!
