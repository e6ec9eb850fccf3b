//! MurmurHash2, 32-bit, with a fixed seed.

use vstd::prelude::*;

verus! {

/// The seed that every hash starts from.
pub const SEED: u32 = 3_242_157_231u32;

/// The odd multiplier of the mixing steps.
pub const M: u32 = 0x5bd1_e995u32;

/// The little-endian 32-bit word made of four bytes.
pub open spec fn le_word(b0: u8, b1: u8, b2: u8, b3: u8) -> u32 {
    (b0 as u32) | ((b1 as u32) << 8u32) | ((b2 as u32) << 16u32) | ((b3 as u32) << 24u32)
}

/// One mixing step: folds the word `k` into the running state `h`.
pub open spec fn mix(h: u32, k: u32) -> u32 {
    let k1 = k.wrapping_mul(M);
    let k2 = k1 ^ (k1 >> 24u32);
    let k3 = k2.wrapping_mul(M);
    h.wrapping_mul(M) ^ k3
}

/// The state after the first `n` whole words of `key` have been folded in. It
/// starts as the seed XOR the low 32 bits of the length.
pub open spec fn mixed_prefix(key: Seq<u8>, n: nat) -> u32
    decreases n,
{
    if n == 0 {
        SEED ^ (key.len() as u32)
    } else {
        let i = 4 * (n - 1);
        mix(mixed_prefix(key, (n - 1) as nat), le_word(key[i], key[i + 1], key[i + 2], key[i + 3]))
    }
}

/// Folds the zero to three bytes that follow the last whole word into `h`.
pub open spec fn mix_tail(h: u32, tail: Seq<u8>) -> u32 {
    if tail.len() == 3 {
        (h ^ ((tail[2] as u32) << 16u32) ^ ((tail[1] as u32) << 8u32) ^ (tail[0] as u32)).wrapping_mul(M)
    } else if tail.len() == 2 {
        (h ^ ((tail[1] as u32) << 8u32) ^ (tail[0] as u32)).wrapping_mul(M)
    } else if tail.len() == 1 {
        (h ^ (tail[0] as u32)).wrapping_mul(M)
    } else {
        h
    }
}

/// The final avalanche.
pub open spec fn avalanche(h: u32) -> u32 {
    let h1 = h ^ (h >> 13u32);
    let h2 = h1.wrapping_mul(M);
    h2 ^ (h2 >> 15u32)
}

/// The hash of `key`.
pub open spec fn hash_of(key: Seq<u8>) -> u32 {
    let blocks = key.len() / 4;
    avalanche(mix_tail(mixed_prefix(key, blocks), key.subrange(4 * blocks as int, key.len() as int)))
}

/// Reads the little-endian word that starts at byte `at` of `key`.
fn read_word(key: &[u8], at: usize) -> (k: u32)
    requires
        at + 4 <= key@.len(),
    ensures
        k == le_word(key@[at as int], key@[at + 1], key@[at + 2], key@[at + 3]),
{
    (key[at] as u32) | ((key[at + 1] as u32) << 8u32) | ((key[at + 2] as u32) << 16u32) | ((key[at + 3] as u32) << 24u32)
}

/// Hashes a byte string to 32 bits.
pub fn murmurhash2(key: &[u8]) -> (h: u32)
    ensures
        h == hash_of(key@),
{
    let n: usize = key.len();
    let len: u32 = #[verifier::truncate] (n as u32);
    let mut h: u32 = SEED ^ len;
    let num_blocks: usize = n / 4;
    let mut i: usize = 0;
    while i < num_blocks
        invariant
            n == key@.len(),
            num_blocks == n / 4,
            i <= num_blocks,
            h == mixed_prefix(key@, i as nat),
        decreases num_blocks - i,
    {
        let mut k: u32 = read_word(key, 4 * i);
        k = k.wrapping_mul(M);
        k ^= k >> 24;
        k = k.wrapping_mul(M);
        h = h.wrapping_mul(M);
        h ^= k;
        i += 1;
    }
    let base: usize = 4 * num_blocks;
    let remaining: usize = n - base;
    if remaining == 3 {
        h ^= (key[base + 2] as u32) << 16;
        h ^= (key[base + 1] as u32) << 8;
        h ^= key[base] as u32;
        h = h.wrapping_mul(M);
    } else if remaining == 2 {
        h ^= (key[base + 1] as u32) << 8;
        h ^= key[base] as u32;
        h = h.wrapping_mul(M);
    } else if remaining == 1 {
        h ^= key[base] as u32;
        h = h.wrapping_mul(M);
    }
    h ^= h >> 13;
    h = h.wrapping_mul(M);
    h ^ (h >> 15)
}

} // verus!
