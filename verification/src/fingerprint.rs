//! Perceptual fingerprints and their bit-level comparison.
//!
//! A fingerprint is the fixed-length bit pattern that the perceptual hasher
//! derives from an image's pixel content.  Two fingerprints are compared by
//! their Hamming distance: the number of bit positions on which they differ.

use crate::EngineError;
use vstd::prelude::*;

verus! {

/// Number of bytes in a fingerprint produced by the 8x8 hasher configuration.
pub const HASH_BYTES: usize = 8;

/// Largest fingerprint length, in bytes, for which the similarity score
/// `100 - hamming distance` cannot fall below zero.
pub const MAX_COMPARABLE_BYTES: usize = 12;

/// Number of bit positions on which two bytes differ.
pub open spec fn byte_bit_diff(x: u8, y: u8) -> int {
    let d = x ^ y;
    ((d >> 0) & 1) + ((d >> 1) & 1) + ((d >> 2) & 1) + ((d >> 3) & 1) + ((d >> 4) & 1) + ((d >> 5)
        & 1) + ((d >> 6) & 1) + ((d >> 7) & 1)
}

/// Number of bit positions on which two byte sequences differ, taken over
/// the positions both sequences have.
pub open spec fn hamming(a: Seq<u8>, b: Seq<u8>) -> int
    decreases a.len(),
{
    if a.len() == 0 || b.len() == 0 {
        0
    } else {
        byte_bit_diff(a.last(), b.last()) + hamming(a.drop_last(), b.drop_last())
    }
}

/// Similarity of two equal-length fingerprints on the 0 to 100 scale:
/// the Hamming distance subtracted from 100.
pub open spec fn similarity_of(a: Seq<u8>, b: Seq<u8>) -> int {
    100 - hamming(a, b)
}

pub proof fn lemma_byte_bit_diff_bounds(x: u8, y: u8)
    ensures
        0 <= byte_bit_diff(x, y) <= 8,
{
    assert(0 <= byte_bit_diff(x, y) <= 8) by (bit_vector);
}

pub proof fn lemma_byte_bit_diff_self(x: u8)
    ensures
        byte_bit_diff(x, x) == 0,
{
    assert(byte_bit_diff(x, x) == 0) by (bit_vector);
}

pub proof fn lemma_byte_bit_diff_sym(x: u8, y: u8)
    ensures
        byte_bit_diff(x, y) == byte_bit_diff(y, x),
{
    assert(x ^ y == y ^ x) by (bit_vector);
}

/// A fingerprint differs from itself on no bit.
pub proof fn lemma_hamming_self(a: Seq<u8>)
    ensures
        hamming(a, a) == 0,
    decreases a.len(),
{
    if a.len() != 0 {
        lemma_byte_bit_diff_self(a.last());
        lemma_hamming_self(a.drop_last());
    }
}

/// Hamming distance does not depend on the order of its arguments.
pub proof fn lemma_hamming_sym(a: Seq<u8>, b: Seq<u8>)
    ensures
        hamming(a, b) == hamming(b, a),
    decreases a.len(),
{
    if a.len() != 0 && b.len() != 0 {
        lemma_byte_bit_diff_sym(a.last(), b.last());
        lemma_hamming_sym(a.drop_last(), b.drop_last());
    }
}

/// Equal-length sequences differ on at most eight bits per byte.
pub proof fn lemma_hamming_bounds(a: Seq<u8>, b: Seq<u8>)
    requires
        a.len() == b.len(),
    ensures
        0 <= hamming(a, b) <= 8 * a.len(),
    decreases a.len(),
{
    if a.len() != 0 {
        lemma_byte_bit_diff_bounds(a.last(), b.last());
        lemma_hamming_bounds(a.drop_last(), b.drop_last());
    }
}

/// The similarity of a fingerprint with itself is the full score.
/// Stated over any byte sequence, since every fingerprint has one bit
/// length in common with itself.
pub proof fn lemma_similarity_self(a: Seq<u8>)
    ensures
        similarity_of(a, a) == 100,
{
    lemma_hamming_self(a);
}

/// Similarity is symmetric in its two arguments.
pub proof fn lemma_similarity_sym(a: Seq<u8>, b: Seq<u8>)
    ensures
        similarity_of(a, b) == similarity_of(b, a),
{
    lemma_hamming_sym(a, b);
}

/// An image's perceptual fingerprint: the raw bytes of its hash bits.
/// Fingerprints are only comparable when produced with the same hasher
/// parameters, which fix their length.
pub struct Fingerprint {
    bytes: Vec<u8>,
}

impl View for Fingerprint {
    type V = Seq<u8>;

    closed spec fn view(&self) -> Seq<u8> {
        self.bytes@
    }
}

impl Fingerprint {
    /// Wraps raw hash bytes, as read back from the reference store.
    pub fn from_bytes(bytes: Vec<u8>) -> (r: Fingerprint)
        ensures
            r@ == bytes@,
    {
        Fingerprint { bytes }
    }

    /// The raw hash bytes, in the form the reference store keeps them.
    pub fn to_bytes(&self) -> (r: Vec<u8>)
        ensures
            r@ == self@,
    {
        let mut out: Vec<u8> = Vec::new();
        let mut i: usize = 0;
        while i < self.bytes.len()
            invariant
                i <= self.bytes@.len(),
                out@ == self.bytes@.take(i as int),
            decreases self.bytes@.len() - i,
        {
            out.push(self.bytes[i]);
            i = i + 1;
            assert(self.bytes@.take(i as int) == self.bytes@.take(i as int - 1).push(
                self.bytes@[i as int - 1],
            ));
        }
        assert(self.bytes@.take(self.bytes@.len() as int) == self.bytes@);
        out
    }

    /// A second fingerprint with the same bits.
    pub fn duplicate(&self) -> (r: Fingerprint)
        ensures
            r@ == self@,
    {
        Fingerprint { bytes: self.to_bytes() }
    }

    /// Length of the fingerprint in bytes.
    pub fn byte_len(&self) -> (r: usize)
        ensures
            r == self@.len(),
    {
        self.bytes.len()
    }
}

/// The fingerprint bytes that the 8x8 hasher computes from a grayscale
/// image: a function of the dimensions and the pixel content alone.
pub uninterp spec fn hash_of(width: u32, height: u32, luma: Seq<u8>) -> Seq<u8>;

/// Relies on img_hash's `Hasher::hash_image` with the fixed 8x8
/// `Gradient` configuration: the hash depends on the pixels alone and
/// packs one comparison bit per cell of the 8x8 grid, 64 bits in 8
/// bytes.  An empty image cannot be resampled and is excluded.
#[verifier::external_body]
pub fn compute_hash(width: u32, height: u32, luma: &Vec<u8>) -> (r: Fingerprint)
    requires
        width > 0,
        height > 0,
        luma@.len() == width * height,
    ensures
        r@.len() == HASH_BYTES,
        r@ == hash_of(width, height, luma@),
{
    let buffer = image::GrayImage::from_raw(width, height, luma.clone())
        .expect("pixel buffer matches the dimensions");
    let img = image::DynamicImage::ImageLuma8(buffer);
    let hasher = img_hash::HasherConfig::new().hash_size(8, 8).to_hasher();
    let hash = hasher.hash_image(&img);
    Fingerprint { bytes: hash.as_bytes().to_vec() }
}

/// Counts the bits on which two bytes differ.
fn byte_distance(x: u8, y: u8) -> (r: u32)
    ensures
        r == byte_bit_diff(x, y),
{
    let d = x ^ y;
    let r = ((d >> 0) & 1) as u32 + ((d >> 1) & 1) as u32 + ((d >> 2) & 1) as u32 + ((d >> 3)
        & 1) as u32 + ((d >> 4) & 1) as u32 + ((d >> 5) & 1) as u32 + ((d >> 6) & 1) as u32 + ((d
        >> 7) & 1) as u32;
    assert(r == byte_bit_diff(x, y)) by (bit_vector)
        requires
            d == x ^ y,
            r == ((d >> 0) & 1) as u32 + ((d >> 1) & 1) as u32 + ((d >> 2) & 1) as u32 + ((d >> 3)
                & 1) as u32 + ((d >> 4) & 1) as u32 + ((d >> 5) & 1) as u32 + ((d >> 6)
                & 1) as u32 + ((d >> 7) & 1) as u32,
    ;
    r
}

/// Hamming distance of two fingerprints.  Fingerprints of different
/// lengths were produced with different parameters and are incomparable.
pub fn hamming_distance(a: &Fingerprint, b: &Fingerprint) -> (r: Result<u32, EngineError>)
    requires
        a@.len() == b@.len() ==> a@.len() <= MAX_COMPARABLE_BYTES,
    ensures
        a@.len() == b@.len() ==> (r matches Ok(d) && d == hamming(a@, b@)),
        a@.len() != b@.len() ==> r == Err::<u32, EngineError>(EngineError::IncompatibleFingerprints),
{
    if a.bytes.len() != b.bytes.len() {
        return Err(EngineError::IncompatibleFingerprints);
    }
    let n = a.bytes.len();
    let mut acc: u32 = 0;
    let mut i: usize = 0;
    while i < n
        invariant
            n == a@.len() == b@.len(),
            n <= MAX_COMPARABLE_BYTES,
            i <= n,
            acc == hamming(a@.take(i as int), b@.take(i as int)),
            acc <= 8 * i,
        decreases n - i,
    {
        proof {
            lemma_byte_bit_diff_bounds(a@[i as int], b@[i as int]);
            assert(a@.take(i as int + 1).drop_last() == a@.take(i as int));
            assert(b@.take(i as int + 1).drop_last() == b@.take(i as int));
            assert(a@.take(i as int + 1).last() == a@[i as int]);
        }
        acc = acc + byte_distance(a.bytes[i], b.bytes[i]);
        i = i + 1;
    }
    proof {
        assert(a@.take(n as int) == a@);
        assert(b@.take(n as int) == b@);
    }
    Ok(acc)
}

/// Similarity score of two fingerprints: their Hamming distance subtracted
/// from 100.  An integer proxy for visual closeness, not a probability.
/// Fails with `IncompatibleFingerprints` when the bit lengths differ.
pub fn calculate_similarity(a: &Fingerprint, b: &Fingerprint) -> (r: Result<u32, EngineError>)
    requires
        a@.len() == b@.len() ==> a@.len() <= MAX_COMPARABLE_BYTES,
    ensures
        a@.len() == b@.len() ==> (r matches Ok(s) && s == similarity_of(a@, b@)),
        a@.len() != b@.len() ==> r == Err::<u32, EngineError>(EngineError::IncompatibleFingerprints),
{
    let dist = hamming_distance(a, b)?;
    proof {
        lemma_hamming_bounds(a@, b@);
    }
    Ok(100 - dist)
}

} // verus!
