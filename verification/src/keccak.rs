//! Keccak-256 digests as four 64-bit words and their bytes32 form, and the domain-separated
//! Merkle leaf hasher and node compression.
use crate::bytes::{be32, be64, be64_at, lemma_be64_of_value, lemma_be64_roundtrip};
use p3_keccak::Keccak256Hash;
use p3_symmetric::CryptographicHasher;
use vstd::prelude::*;

verus! {

/// Number of 64-bit words in a Keccak digest.
pub const KECCAK_DIGEST_ELEMS: usize = 4;

/// The canonical bytes32 form of a digest: its four words, each big-endian, in order.
pub open spec fn digest_bytes(d: Seq<u64>) -> Seq<u8> {
    be64(d[0]) + be64(d[1]) + be64(d[2]) + be64(d[3])
}

/// The four words of a digest read back from its bytes32 form.
pub open spec fn digest_words(b: Seq<u8>) -> Seq<u64> {
    seq![be64_at(b, 0), be64_at(b, 8), be64_at(b, 16), be64_at(b, 24)]
}

/// Converts a `[u64; 4]` digest to its canonical bytes32 form (big-endian words).
pub fn digest_u64_to_bytes32(digest: &[u64; KECCAK_DIGEST_ELEMS]) -> (out: [u8; 32])
    ensures
        out@ == digest_bytes(digest@),
{
    let mut v: Vec<u8> = Vec::new();
    let mut i: usize = 0;
    while i < KECCAK_DIGEST_ELEMS
        invariant
            i <= 4,
            v@ == digest_bytes(digest@).subrange(0, 8 * i as int),
        decreases 4 - i,
    {
        let w = digest[i];
        v.push((w >> 56u64) as u8);
        v.push((w >> 48u64) as u8);
        v.push((w >> 40u64) as u8);
        v.push((w >> 32u64) as u8);
        v.push((w >> 24u64) as u8);
        v.push((w >> 16u64) as u8);
        v.push((w >> 8u64) as u8);
        v.push(w as u8);
        assert(v@ =~= digest_bytes(digest@).subrange(0, 8 * (i + 1) as int));
        i = i + 1;
    }
    let mut out = [0u8; 32];
    let mut j: usize = 0;
    while j < 32
        invariant
            j <= 32,
            v@ == digest_bytes(digest@),
            v@.len() == 32,
            forall|k: int| 0 <= k < j ==> out@[k] == v@[k],
        decreases 32 - j,
    {
        out[j] = v[j];
        j = j + 1;
    }
    assert(out@ =~= digest_bytes(digest@));
    out
}


/// Reads a bytes32 digest back into its four big-endian words.
pub fn digest_bytes32_to_u64(bytes: &[u8; 32]) -> (out: [u64; KECCAK_DIGEST_ELEMS])
    ensures
        out@ == digest_words(bytes@),
{
    let mut out = [0u64; KECCAK_DIGEST_ELEMS];
    let mut i: usize = 0;
    while i < KECCAK_DIGEST_ELEMS
        invariant
            i <= 4,
            forall|k: int| 0 <= k < i ==> out@[k] == be64_at(bytes@, 8 * k),
        decreases 4 - i,
    {
        let b = 8 * i;
        let word: u64 = ((bytes[b] as u64) << 56u64) | ((bytes[b + 1] as u64) << 48u64) | ((
        bytes[b + 2] as u64) << 40u64) | ((bytes[b + 3] as u64) << 32u64) | ((bytes[b + 4] as u64)
            << 24u64) | ((bytes[b + 5] as u64) << 16u64) | ((bytes[b + 6] as u64) << 8u64) | (bytes[b
            + 7] as u64);
        out[i] = word;
        i = i + 1;
    }
    assert(out@ =~= digest_words(bytes@));
    out
}

/// Reading back the bytes32 form of a digest gives the digest again.
pub proof fn lemma_digest_words_of_bytes(d: Seq<u64>)
    requires
        d.len() == 4,
    ensures
        digest_words(digest_bytes(d)) == d,
        digest_bytes(d).len() == 32,
{
    let b = digest_bytes(d);
    assert(b.subrange(0, 8) =~= be64(d[0]));
    assert(b.subrange(8, 16) =~= be64(d[1]));
    assert(b.subrange(16, 24) =~= be64(d[2]));
    assert(b.subrange(24, 32) =~= be64(d[3]));
    lemma_be64_roundtrip(d[0], b, 0);
    lemma_be64_roundtrip(d[1], b, 8);
    lemma_be64_roundtrip(d[2], b, 16);
    lemma_be64_roundtrip(d[3], b, 24);
    assert(digest_words(b) =~= d);
}

/// Every 32-byte string is the bytes32 form of the words read from it.
pub proof fn lemma_digest_bytes_of_words(b: Seq<u8>)
    requires
        b.len() == 32,
    ensures
        digest_bytes(digest_words(b)) == b,
{
    lemma_be64_of_value(b, 0);
    lemma_be64_of_value(b, 8);
    lemma_be64_of_value(b, 16);
    lemma_be64_of_value(b, 24);
    assert(digest_bytes(digest_words(b)) =~= b);
}

/// The Keccak-256 digest of a byte string, as computed by `p3_keccak::Keccak256Hash`.
pub uninterp spec fn keccak256(data: Seq<u8>) -> Seq<u8>;

/// Calls `Keccak256Hash::hash_iter` (p3-keccak) on the bytes of `data`, in order.
/// Trusted: the 32 returned bytes are `keccak256` of exactly those bytes; nothing more is
/// claimed of the hash function itself.
#[verifier::external_body]
pub(crate) fn keccak256_hash_iter(data: &[u8]) -> (out: [u8; 32])
    ensures
        out@ == keccak256(data@),
{
    Keccak256Hash.hash_iter(data.iter().copied())
}

/// Calls `Keccak256Hash::hash_iter_slices` (p3-keccak) on three slices. Its source feeds each
/// slice, in order, into one Keccak-256 state, as `hash_iter` does with the concatenation; the
/// contract says the result is `keccak256` of the concatenation.
#[verifier::external_body]
pub(crate) fn keccak256_hash_iter_slices3(a: &[u8], b: &[u8], c: &[u8]) -> (out: [u8; 32])
    ensures
        out@ == keccak256(a@ + b@ + c@),
{
    Keccak256Hash.hash_iter_slices([a, b, c])
}

/// Concatenated big-endian bytes of a sequence of 32-bit limbs.
pub open spec fn limbs_be(s: Seq<u32>) -> Seq<u8>
    decreases s.len(),
{
    if s.len() == 0 {
        seq![]
    } else {
        limbs_be(s.drop_last()) + be32(s.last())
    }
}

/// Domain-separated Keccak leaf preimage: `0x00` followed by every limb, big-endian.
pub open spec fn leaf_preimage(values: Seq<u32>) -> Seq<u8> {
    seq![0u8] + limbs_be(values)
}

/// Domain-separated Keccak node preimage: `0x01 || left || right` in bytes32 form.
pub open spec fn node_preimage(left: Seq<u64>, right: Seq<u64>) -> Seq<u8> {
    seq![1u8] + digest_bytes(left) + digest_bytes(right)
}

/// Merkle leaf hasher: Keccak256 over `0x00` and the canonical 32-bit big-endian limbs of the
/// leaf's field elements, read back as four big-endian words.
#[derive(Clone, Copy, Debug, Default)]
pub struct KeccakU32BeLeafHasher;

impl KeccakU32BeLeafHasher {
    /// Hashes the canonical `u32` values of a leaf's field elements, in order.
    pub fn hash_iter(&self, input: &[u32]) -> (out: [u64; KECCAK_DIGEST_ELEMS])
        ensures
            out@ == digest_words(keccak256(leaf_preimage(input@))),
    {
        let mut preimage: Vec<u8> = Vec::new();
        preimage.push(0u8);
        let mut i: usize = 0;
        while i < input.len()
            invariant
                i <= input@.len(),
                preimage@ == seq![0u8] + limbs_be(input@.subrange(0, i as int)),
            decreases input@.len() - i,
        {
            let x = input[i];
            preimage.push((x >> 24u32) as u8);
            preimage.push((x >> 16u32) as u8);
            preimage.push((x >> 8u32) as u8);
            preimage.push(x as u8);
            assert(input@.subrange(0, i + 1).drop_last() =~= input@.subrange(0, i as int));
            assert(preimage@ =~= seq![0u8] + limbs_be(input@.subrange(0, i + 1)));
            i = i + 1;
        }
        assert(input@.subrange(0, input@.len() as int) =~= input@);
        let bytes = keccak256_hash_iter(preimage.as_slice());
        digest_bytes32_to_u64(&bytes)
    }
}

/// Merkle node compression: Keccak256 over `0x01 || left || right` (bytes32 forms).
#[derive(Clone, Copy, Debug, Default)]
pub struct KeccakNodeCompress;

impl KeccakNodeCompress {
    /// Compresses two child digests into their parent digest.
    pub fn compress(&self, input: [[u64; KECCAK_DIGEST_ELEMS]; 2]) -> (out: [u64;
        KECCAK_DIGEST_ELEMS])
        ensures
            out@ == digest_words(keccak256(node_preimage(input@[0]@, input@[1]@))),
    {
        let prefix = [1u8];
        let left = digest_u64_to_bytes32(&input[0]);
        let right = digest_u64_to_bytes32(&input[1]);
        let bytes = keccak256_hash_iter_slices3(prefix.as_slice(), left.as_slice(), right.as_slice());
        assert(prefix@ =~= seq![1u8]);
        digest_bytes32_to_u64(&bytes)
    }
}

/// Leaves and nodes are hashed over disjoint preimages: a leaf preimage starts with `0x00`, a
/// node preimage with `0x01`, so no leaf hash input is ever a node hash input.
pub proof fn lemma_domain_separation(values: Seq<u32>, left: Seq<u64>, right: Seq<u64>)
    ensures
        leaf_preimage(values) != node_preimage(left, right),
        leaf_preimage(values)[0] == 0u8,
        node_preimage(left, right)[0] == 1u8,
{
    assert(leaf_preimage(values)[0] == 0u8);
    assert(node_preimage(left, right)[0] == 1u8);
}

} // verus!
