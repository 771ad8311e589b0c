use hyperplonk_evm::calldata::verify_bytes_selector;
use hyperplonk_evm::keccak::{
    digest_bytes32_to_u64, digest_u64_to_bytes32, KeccakNodeCompress, KeccakU32BeLeafHasher,
};

#[test]
fn digest_to_bytes32_is_big_endian_words() {
    let digest = [0x0102030405060708u64, 0x1112131415161718, 0, u64::MAX];
    let bytes = digest_u64_to_bytes32(&digest);
    let mut expected = [0u8; 32];
    expected[..8].copy_from_slice(&[1, 2, 3, 4, 5, 6, 7, 8]);
    expected[8..16].copy_from_slice(&[0x11, 0x12, 0x13, 0x14, 0x15, 0x16, 0x17, 0x18]);
    expected[24..].copy_from_slice(&[0xff; 8]);
    assert_eq!(bytes, expected);
}

#[test]
fn digest_bytes32_roundtrip() {
    let digest = [7u64, 0xdead_beef_0000_0001, 42, 1 << 63];
    assert_eq!(digest_bytes32_to_u64(&digest_u64_to_bytes32(&digest)), digest);
    let mut bytes = [0u8; 32];
    for (i, b) in bytes.iter_mut().enumerate() {
        *b = (i as u8).wrapping_mul(37);
    }
    assert_eq!(digest_u64_to_bytes32(&digest_bytes32_to_u64(&bytes)), bytes);
}

#[test]
fn selector_is_keccak_of_signature() {
    assert_eq!(verify_bytes_selector(), [0x8e, 0x76, 0x0a, 0xfe]);
}

#[test]
fn leaf_hash_of_known_limbs() {
    let out = KeccakU32BeLeafHasher.hash_iter(&[1, 2, 0x7f00_0000]);
    assert_eq!(
        out,
        [0x00bd469cb823902c, 0x32118f4a39be1b1d, 0xf83901def97d4fa7, 0x011f6c734acb4a1a]
    );
}

#[test]
fn leaf_hash_of_empty_leaf_is_domain_separated() {
    let out = KeccakU32BeLeafHasher.hash_iter(&[]);
    assert_eq!(
        out,
        [0xbc36789e7a1e2814, 0x36464229828f817d, 0x6612f7b477d66591, 0xff96a9e064bcc98a]
    );
}

#[test]
fn node_compress_of_known_children() {
    let out = KeccakNodeCompress.compress([[1, 2, 3, 4], [5, 6, 7, 8]]);
    assert_eq!(
        out,
        [0x21baba69b0ec4262, 0x485c94bba596cbe3, 0x7d04c2e3ae950fdf, 0x4644fd9caf276176]
    );
}

#[test]
fn node_compress_is_order_sensitive() {
    let a = KeccakNodeCompress.compress([[1, 2, 3, 4], [5, 6, 7, 8]]);
    let b = KeccakNodeCompress.compress([[5, 6, 7, 8], [1, 2, 3, 4]]);
    assert_ne!(a, b);
}

#[test]
fn leaf_and_node_hashes_are_domain_separated() {
    // The same 64 payload bytes hashed as a leaf (16 limbs) and as a node (two digests).
    let left = [0x0000_0001_0000_0002u64, 0x0000_0003_0000_0004, 0x0000_0005_0000_0006, 0x0000_0007_0000_0008];
    let right = [0x0000_0009_0000_000au64, 0x0000_000b_0000_000c, 0x0000_000d_0000_000e, 0x0000_000f_0000_0010];
    let limbs: Vec<u32> = (1..=16).collect();
    let leaf = KeccakU32BeLeafHasher.hash_iter(&limbs);
    let node = KeccakNodeCompress.compress([left, right]);
    assert_ne!(leaf, node);
}
