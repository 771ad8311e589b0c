use hyperplonk_evm::blob::DecodeError;
use hyperplonk_evm::decode::decode_proof_blob_v1;
use hyperplonk_evm::encode::{encode_proof_blob_v1, encode_proof_blob_v1_with_offsets};
use hyperplonk_evm::field::Challenge;
use hyperplonk_evm::keccak::digest_u64_to_bytes32;
use hyperplonk_evm::model::{
    AirProof, AirUnivariateSkipProof, BatchSumcheckProof, Fraction, FractionalSumProof,
    HyperPlonkProof, PiopProof, QueryOpening, SumcheckData, WhirProof, WhirRoundProof,
};

fn ch(x: u32) -> Challenge {
    Challenge { c0: x, c1: x + 1, c2: x + 2, c3: x + 3 }
}

fn batch(x: u32) -> BatchSumcheckProof {
    BatchSumcheckProof {
        compressed_round_polys: vec![vec![ch(x), ch(x + 100)], vec![]],
        evals: vec![vec![ch(x + 200)]],
    }
}

fn sumcheck(x: u32) -> SumcheckData {
    SumcheckData {
        polynomial_evaluations: vec![[ch(x), ch(x + 10)], [ch(x + 20), ch(x + 30)]],
        pow_witnesses: vec![x, x + 1],
    }
}

fn whir(x: u32, with_options: bool) -> WhirProof {
    WhirProof {
        initial_commitment: [x as u64, 2, 3, 4],
        initial_ood_answers: vec![ch(x + 1), ch(x + 2)],
        initial_sumcheck: sumcheck(x + 3),
        rounds: vec![WhirRoundProof {
            commitment: [9, 10, 11, x as u64],
            ood_answers: vec![ch(x + 4)],
            pow_witness: x + 5,
            queries: vec![
                QueryOpening::Base { values: vec![x + 6, x + 7], proof: vec![[19, 20, 21, 22]] },
                QueryOpening::Extension {
                    values: vec![ch(x + 8)],
                    proof: vec![[24, 25, 26, 27], [28, 29, 30, 31]],
                },
            ],
            sumcheck: sumcheck(x + 9),
        }],
        final_poly: if with_options { Some(vec![ch(x + 10), ch(x + 11)]) } else { None },
        final_pow_witness: x + 12,
        final_queries: vec![QueryOpening::Base { values: vec![x + 13], proof: vec![] }],
        final_sumcheck: if with_options { Some(sumcheck(x + 14)) } else { None },
    }
}

fn build_proof(with_options: bool) -> HyperPlonkProof {
    HyperPlonkProof {
        log_bs: vec![3, 4, 200],
        commitment: [0x0102030405060708, 2, 3, 4],
        piop: PiopProof {
            fractional_sum: FractionalSumProof {
                sums: vec![vec![Fraction { numer: ch(50), denom: ch(60) }], vec![]],
                layers: vec![batch(70)],
            },
            air: AirProof {
                univariate_skips: vec![AirUnivariateSkipProof {
                    skip_rounds: 6,
                    zero_check_round_poly: vec![ch(80)],
                    eval_check_round_poly: vec![ch(90), ch(91)],
                }],
                regular: batch(110),
                univariate_eval_check: batch(120),
            },
        },
        pcs: vec![whir(1000, with_options), whir(2000, false)],
    }
}

fn public_inputs() -> Vec<Vec<u32>> {
    vec![vec![1, 2, 0x7f00_0000]]
}

fn empty_proof() -> HyperPlonkProof {
    let empty_batch = || BatchSumcheckProof { compressed_round_polys: vec![], evals: vec![] };
    HyperPlonkProof {
        log_bs: vec![],
        commitment: [0; 4],
        piop: PiopProof {
            fractional_sum: FractionalSumProof { sums: vec![], layers: vec![] },
            air: AirProof {
                univariate_skips: vec![],
                regular: empty_batch(),
                univariate_eval_check: empty_batch(),
            },
        },
        pcs: vec![],
    }
}

#[test]
fn proof_blob_roundtrip_and_strictness() {
    let proof = build_proof(true);
    let public_inputs = public_inputs();

    let blob_a = encode_proof_blob_v1(&public_inputs, &proof);
    let blob_b = encode_proof_blob_v1(&public_inputs, &proof);
    assert_eq!(blob_a, blob_b, "encoding must be deterministic");

    let decoded = decode_proof_blob_v1(&blob_a).expect("roundtrip decode failed");
    assert_eq!(decoded.public_inputs, public_inputs);
    assert_eq!(decoded.proof, proof);

    let mut trailing = blob_a.clone();
    trailing.push(0u8);
    assert!(
        decode_proof_blob_v1(&trailing).is_err(),
        "decoder must reject trailing bytes"
    );

    // Replace the canonical count of public-input vectors (`1`) with the non-canonical
    // ULEB128 encoding `0x81 0x00`.
    assert_eq!(blob_a[5], 1);
    let mut noncanonical = Vec::with_capacity(blob_a.len() + 1);
    noncanonical.extend_from_slice(&blob_a[..5]);
    noncanonical.extend_from_slice(&[0x81, 0x00]);
    noncanonical.extend_from_slice(&blob_a[6..]);
    assert!(
        decode_proof_blob_v1(&noncanonical).is_err(),
        "decoder must reject non-canonical varuints"
    );
}

#[test]
fn trailing_bytes_error_kind() {
    let mut blob = encode_proof_blob_v1(&public_inputs(), &build_proof(false));
    blob.extend_from_slice(&[1, 2, 3]);
    assert_eq!(decode_proof_blob_v1(&blob).unwrap_err(), DecodeError::TrailingBytes);
}

#[test]
fn noncanonical_varuint_error_kind() {
    let blob = encode_proof_blob_v1(&public_inputs(), &build_proof(false));
    let mut noncanonical = blob[..5].to_vec();
    noncanonical.extend_from_slice(&[0x81, 0x00]);
    noncanonical.extend_from_slice(&blob[6..]);
    assert_eq!(
        decode_proof_blob_v1(&noncanonical).unwrap_err(),
        DecodeError::NonCanonicalVaruint
    );
}

#[test]
fn option_roundtrip_stability_for_present_and_absent_sections() {
    for with_options in [true, false] {
        let proof = build_proof(with_options);
        let blob = encode_proof_blob_v1(&public_inputs(), &proof);
        let decoded = decode_proof_blob_v1(&blob).expect("decode failed");
        assert_eq!(decoded.proof.pcs[0].final_poly.is_some(), with_options);
        assert_eq!(decoded.proof.pcs[0].final_sumcheck.is_some(), with_options);
        assert!(decoded.proof.pcs[1].final_poly.is_none());
        let reencoded = encode_proof_blob_v1(&decoded.public_inputs, &decoded.proof);
        assert_eq!(reencoded, blob);
    }
}

#[test]
fn empty_proof_exact_bytes() {
    let blob = encode_proof_blob_v1(&[], &empty_proof());
    let mut expected = vec![0x48, 0x50, 0x4b, 0x31, 0x01, 0x00, 0x00];
    expected.extend_from_slice(&[0u8; 32]);
    // fractional sum: no sums, no layers; AIR: no skips, two empty batched sumchecks; no PCS.
    expected.extend_from_slice(&[0, 0, 0, 0, 0, 0, 0, 0]);
    assert_eq!(blob, expected);
    let decoded = decode_proof_blob_v1(&blob).expect("decode failed");
    assert_eq!(decoded.proof, empty_proof());
    assert!(decoded.public_inputs.is_empty());
}

#[test]
fn header_errors() {
    let blob = encode_proof_blob_v1(&[], &empty_proof());
    assert_eq!(decode_proof_blob_v1(&blob[..3]).unwrap_err(), DecodeError::UnexpectedEnd);
    let mut bad_magic = blob.clone();
    bad_magic[0] = b'X';
    assert_eq!(decode_proof_blob_v1(&bad_magic).unwrap_err(), DecodeError::InvalidMagic);
    let mut bad_version = blob.clone();
    bad_version[4] = 2;
    assert_eq!(decode_proof_blob_v1(&bad_version).unwrap_err(), DecodeError::UnsupportedVersion);
    assert_eq!(
        decode_proof_blob_v1(&blob[..blob.len() - 1]).unwrap_err(),
        DecodeError::UnexpectedEnd
    );
}

#[test]
fn varuint_overflow_and_length_errors() {
    let blob = encode_proof_blob_v1(&[], &empty_proof());
    // Ten continuation bytes never end a varuint.
    let mut overflow = blob[..5].to_vec();
    overflow.extend_from_slice(&[0xff; 10]);
    overflow.extend_from_slice(&blob[6..]);
    assert_eq!(decode_proof_blob_v1(&overflow).unwrap_err(), DecodeError::VaruintOverflow);
    // A huge count runs past the end of the input.
    let mut huge = blob[..5].to_vec();
    huge.extend_from_slice(&[0xff, 0xff, 0xff, 0x07]);
    huge.extend_from_slice(&blob[6..]);
    assert_eq!(decode_proof_blob_v1(&huge).unwrap_err(), DecodeError::UnexpectedEnd);
}

#[test]
fn option_and_query_tag_errors() {
    let proof = build_proof(false);
    let (blob, offsets) = encode_proof_blob_v1_with_offsets(&public_inputs(), &proof);
    // Without options the last proof ends with: final_poly tag (0), final pow witness (4
    // bytes), one final query (count, tag, values, siblings), final_sumcheck tag (0).
    let last = blob.len() - 1;
    assert_eq!(blob[last], 0);
    let mut bad_option = blob.clone();
    bad_option[last] = 2;
    assert_eq!(decode_proof_blob_v1(&bad_option).unwrap_err(), DecodeError::UnknownOptionTag);
    // The final query of the last proof: tag 0 (base) at 1 + 4 + 1 + 4 + 1 bytes from the end.
    let tag_pos = blob.len() - 1 - 1 - 4 - 1 - 1;
    assert_eq!(blob[tag_pos], 0);
    let mut bad_query = blob.clone();
    bad_query[tag_pos] = 7;
    assert_eq!(decode_proof_blob_v1(&bad_query).unwrap_err(), DecodeError::UnknownQueryTag);
    assert!(offsets.first_final_poly_offset.is_none());
}

#[test]
fn final_poly_length_must_be_power_of_two() {
    let mut proof = build_proof(true);
    proof.pcs[0].final_poly = Some(vec![ch(1), ch(2), ch(3)]);
    let blob = encode_proof_blob_v1(&public_inputs(), &proof);
    assert_eq!(decode_proof_blob_v1(&blob).unwrap_err(), DecodeError::FinalPolyNotPowerOfTwo);
}

#[test]
fn offsets_point_at_representative_fields() {
    let proof = build_proof(true);
    let (blob, offsets) = encode_proof_blob_v1_with_offsets(&public_inputs(), &proof);
    assert_eq!(blob, encode_proof_blob_v1(&public_inputs(), &proof));

    let c = offsets.commitment_offset.expect("commitment offset");
    assert_eq!(&blob[c..c + 32], &digest_u64_to_bytes32(&proof.commitment));

    let be = |x: &Challenge| -> Vec<u8> {
        [x.c0, x.c1, x.c2, x.c3].iter().flat_map(|v| v.to_be_bytes()).collect()
    };
    let o = offsets.first_initial_ood_answer_offset.expect("ood offset");
    assert_eq!(blob[o..o + 16].to_vec(), be(&proof.pcs[0].initial_ood_answers[0]));

    let s = offsets.first_sumcheck_coeff_offset.expect("sumcheck offset");
    assert_eq!(blob[s..s + 16].to_vec(), be(&proof.piop.fractional_sum.sums[0][0].numer));

    let m = offsets.first_merkle_sibling_offset.expect("sibling offset");
    let sibling = match &proof.pcs[0].rounds[0].queries[0] {
        QueryOpening::Base { proof, .. } => proof[0],
        QueryOpening::Extension { proof, .. } => proof[0],
    };
    assert_eq!(&blob[m..m + 32], &digest_u64_to_bytes32(&sibling));

    // The final polynomial's offset is that of its length, right before its evaluations.
    let f = offsets.first_final_poly_offset.expect("final poly offset");
    assert_eq!(blob[f], 2);
    assert_eq!(blob[f + 1..f + 17].to_vec(), be(&proof.pcs[0].final_poly.as_ref().unwrap()[0]));
}

#[test]
fn field_values_are_reduced_on_decode() {
    let blob = encode_proof_blob_v1(&[vec![0x7f00_0001, 5]], &empty_proof());
    let decoded = decode_proof_blob_v1(&blob).expect("decode failed");
    assert_eq!(decoded.public_inputs, vec![vec![0, 5]]);
}

#[test]
fn decoded_blob_reencodes_to_a_fixed_point() {
    // A non-canonical field value is reduced on decode; re-encoding the decoded proof gives a
    // blob that decodes to the same values.
    let blob = encode_proof_blob_v1(&[vec![0xffff_ffff, 3]], &build_proof(true));
    let decoded = decode_proof_blob_v1(&blob).expect("decode failed");
    assert_eq!(decoded.public_inputs, vec![vec![0xffff_ffff % 0x7f00_0001, 3]]);
    let reencoded = encode_proof_blob_v1(&decoded.public_inputs, &decoded.proof);
    assert_ne!(reencoded, blob);
    let again = decode_proof_blob_v1(&reencoded).expect("decode failed");
    assert_eq!(again, decoded);
    assert_eq!(encode_proof_blob_v1(&again.public_inputs, &again.proof), reencoded);
}

#[test]
fn canonical_blob_reencodes_to_its_own_bytes() {
    // Every base-field limb here is below the modulus, so decoding and encoding again must
    // give back exactly the bytes that were read.
    for with_options in [false, true] {
        let blob = encode_proof_blob_v1(&public_inputs(), &build_proof(with_options));
        let decoded = decode_proof_blob_v1(&blob).expect("decode failed");
        assert_eq!(encode_proof_blob_v1(&decoded.public_inputs, &decoded.proof), blob);
    }
    let empty = encode_proof_blob_v1(&[], &empty_proof());
    let decoded = decode_proof_blob_v1(&empty).expect("decode failed");
    assert_eq!(encode_proof_blob_v1(&decoded.public_inputs, &decoded.proof), empty);
}
