use hyperplonk_evm::calldata::encode_calldata_verify_bytes;
use hyperplonk_evm::render::{
    hex_prefixed, keccak_mode_label, render_json_payload, HashCounts, JSON_SCHEMA,
};

const COUNTS: HashCounts = HashCounts { prover: 120, verifier: 35 };

#[test]
fn hex_prefixed_lowercase_two_digits_per_byte() {
    assert_eq!(hex_prefixed(&[]), "0x");
    assert_eq!(hex_prefixed(&[0x00, 0xab, 0xff, 0x09, 0x10]), "0x00abff0910");
}

#[test]
fn compact_json_exact() {
    let blob = [0x01u8, 0xfe];
    let calldata = [0xaau8];
    let json = render_json_payload(&blob, &calldata, false, COUNTS);
    assert_eq!(
        json,
        "{\"schema\":\"p3-hyperplonk-evm-proof-v2\",\"verify_function\":\"verify(bytes)\",\"keccak_mode\":\"keccak256-u32be\",\"selector\":\"0x8e760afe\",\"proof_bytes\":\"0x01fe\",\"proof_bytes_len\":2,\"calldata\":\"0xaa\",\"calldata_len\":1,\"hash_counts_prover\":120,\"hash_counts_verifier\":35,\"hash_counts_total\":155}"
    );
}

#[test]
fn pretty_json_exact() {
    let blob: Vec<u8> = vec![7; 12];
    let calldata = encode_calldata_verify_bytes(&blob);
    let json = render_json_payload(&blob, &calldata, true, COUNTS);
    let expected = format!(
        "{{\n  \"schema\": \"{}\",\n  \"verify_function\": \"verify(bytes)\",\n  \"keccak_mode\": \"{}\",\n  \"selector\": \"0x8e760afe\",\n  \"proof_bytes\": \"{}\",\n  \"proof_bytes_len\": 12,\n  \"calldata\": \"{}\",\n  \"calldata_len\": 100,\n  \"hash_counts_prover\": 120,\n  \"hash_counts_verifier\": 35,\n  \"hash_counts_total\": 155\n}}\n",
        JSON_SCHEMA,
        keccak_mode_label(),
        hex_prefixed(&blob),
        hex_prefixed(&calldata),
    );
    assert_eq!(json, expected);
}

#[test]
fn hash_count_total_does_not_overflow() {
    let counts = HashCounts { prover: u64::MAX, verifier: u64::MAX };
    let json = render_json_payload(&[], &[], false, counts);
    assert!(json.contains("\"hash_counts_total\":36893488147419103230}"));
}

#[test]
fn calldata_and_json_mode_contract() {
    let blob: Vec<u8> = (0u8..200).collect();
    let calldata = encode_calldata_verify_bytes(&blob);
    let json = render_json_payload(&blob, &calldata, false, COUNTS);
    assert!(json.contains("\"schema\":\"p3-hyperplonk-evm-proof-v2\""));
    assert!(json.contains("\"verify_function\":\"verify(bytes)\""));
    assert!(json.contains(&format!("\"keccak_mode\":\"{}\"", keccak_mode_label())));
    assert!(json.contains("\"hash_counts_prover\":"));
    assert!(json.contains("\"hash_counts_verifier\":"));
    assert!(json.contains("\"hash_counts_total\":"));
    assert!(json.contains(&format!("\"proof_bytes_len\":{}", blob.len())));
    assert!(json.contains(&format!("\"calldata_len\":{}", calldata.len())));
    let pretty = render_json_payload(&blob, &calldata, true, COUNTS);
    assert!(pretty.ends_with("}\n"));
    assert!(pretty.contains(&format!("\"proof_bytes_len\": {}", blob.len())));
}
