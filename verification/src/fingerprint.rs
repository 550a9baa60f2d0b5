//! Frames and their 64-bit perceptual fingerprints.
//!
//! The fingerprint of a frame is an opaque 64-bit value produced by the
//! acquisition side of the system; the algorithms here read it only through
//! the distance function `dist`, the number of differing bits (Hamming
//! distance). `dist` is symmetric, zero on equal fingerprints, and bounded
//! by 64.

use vstd::prelude::*;

verus! {

/// A sampled video frame: its index in the extracted sequence and its
/// 64-bit perceptual fingerprint.
#[derive(Clone, Copy, Debug)]
pub struct FrameEntry {
    pub idx: usize,
    pub hash: u64,
}

/// Number of set bits among the low `k` bits of `x`.
pub open spec fn bits_below(x: u64, k: nat) -> nat
    decreases k,
{
    if k == 0 {
        0
    } else {
        bits_below(x, (k - 1) as nat) + (if (x >> ((k - 1) as u64)) & 1 == 1 {
            1nat
        } else {
            0nat
        })
    }
}

/// Number of set bits of a 64-bit value.
pub open spec fn popcount(x: u64) -> nat {
    bits_below(x, 64)
}

/// Fingerprint distance: the Hamming distance between two 64-bit
/// fingerprints.
pub open spec fn dist(a: u64, b: u64) -> nat {
    popcount(a ^ b)
}

/// The sequence of fingerprints carried by a sequence of frames.
pub open spec fn hash_seq(frames: Seq<FrameEntry>) -> Seq<u64> {
    frames.map_values(|f: FrameEntry| f.hash)
}

proof fn lemma_bits_below_bound(x: u64, k: nat)
    ensures
        bits_below(x, k) <= k,
    decreases k,
{
    if k > 0 {
        lemma_bits_below_bound(x, (k - 1) as nat);
    }
}

proof fn lemma_bits_below_zero(k: nat)
    ensures
        bits_below(0u64, k) == 0,
    decreases k,
{
    if k > 0 {
        lemma_bits_below_zero((k - 1) as nat);
        let sh = (k - 1) as u64;
        assert((0u64 >> sh) & 1 == 0) by (bit_vector);
    }
}

/// The fingerprint distance is a bounded, symmetric dissimilarity measure:
/// it never exceeds 64, it does not depend on the order of its arguments,
/// and it is zero on equal fingerprints.
pub proof fn lemma_dist_properties(a: u64, b: u64)
    ensures
        dist(a, b) <= 64,
        dist(a, b) == dist(b, a),
        dist(a, a) == 0,
{
    lemma_bits_below_bound(a ^ b, 64);
    assert(a ^ b == b ^ a) by (bit_vector);
    assert(a ^ a == 0u64) by (bit_vector);
    lemma_bits_below_zero(64);
}

/// Computes the fingerprint distance between two fingerprints: the number
/// of bit positions where they differ.
pub fn hash_dist(a: u64, b: u64) -> (d: u32)
    ensures
        d == dist(a, b),
        d <= 64,
{
    let x = a ^ b;
    let mut d: u32 = 0;
    let mut k: u64 = 0;
    while k < 64
        invariant
            k <= 64,
            d == bits_below(x, k as nat),
            d <= k,
        decreases 64 - k,
    {
        if (x >> k) & 1 == 1 {
            d = d + 1;
        }
        k = k + 1;
        assert(bits_below(x, k as nat) == bits_below(x, (k - 1) as nat) + (if (x >> ((k
            - 1) as u64)) & 1 == 1 {
            1nat
        } else {
            0nat
        }));
    }
    proof {
        lemma_bits_below_bound(x, 64);
    }
    d
}

} // verus!
