use hyperplonk_evm::blob::DecodeError;
use hyperplonk_evm::calldata::{
    abi_encode_single_bytes, decode_abi_word_usize, decode_verify_bytes_calldata,
    encode_abi_word_usize, encode_calldata_verify_bytes, pad32, verify_bytes_selector,
    VERIFY_FUNCTION,
};

fn sample_blob() -> Vec<u8> {
    (0u8..77).map(|i| i.wrapping_mul(7).wrapping_add(1)).collect()
}

#[test]
fn decode_verify_bytes_calldata_rejects_trailing_data() {
    let blob = sample_blob();
    let mut calldata = encode_calldata_verify_bytes(&blob);
    calldata.extend_from_slice(&[0u8, 1u8, 2u8]);

    assert!(
        decode_verify_bytes_calldata(&calldata).is_err(),
        "decoder must reject trailing calldata bytes"
    );
    assert_eq!(
        decode_verify_bytes_calldata(&calldata).unwrap_err(),
        DecodeError::TrailingCalldata
    );
}

#[test]
fn calldata_contract() {
    let blob = sample_blob();
    let calldata = encode_calldata_verify_bytes(&blob);
    assert_eq!(&calldata[..4], &verify_bytes_selector());
    assert_eq!(calldata.len(), 4 + 32 + 32 + 96);
    let decoded_blob = decode_verify_bytes_calldata(&calldata).expect("invalid calldata encoding");
    assert_eq!(decoded_blob, blob, "calldata bytes arg must equal proof blob");
}

#[test]
fn calldata_exact_layout() {
    let calldata = encode_calldata_verify_bytes(&[0xaa, 0xbb, 0xcc]);
    let mut expected = vec![0x8e, 0x76, 0x0a, 0xfe];
    let mut word = [0u8; 32];
    word[31] = 32;
    expected.extend_from_slice(&word);
    word[31] = 3;
    expected.extend_from_slice(&word);
    expected.extend_from_slice(&[0xaa, 0xbb, 0xcc]);
    expected.extend_from_slice(&[0u8; 29]);
    assert_eq!(calldata, expected);
    assert_eq!(decode_verify_bytes_calldata(&calldata).unwrap(), vec![0xaa, 0xbb, 0xcc]);
}

#[test]
fn empty_argument_roundtrip() {
    let calldata = encode_calldata_verify_bytes(&[]);
    assert_eq!(calldata.len(), 68);
    assert_eq!(decode_verify_bytes_calldata(&calldata).unwrap(), Vec::<u8>::new());
}

#[test]
fn calldata_error_kinds() {
    let blob = sample_blob();
    let calldata = encode_calldata_verify_bytes(&blob);

    assert_eq!(
        decode_verify_bytes_calldata(&calldata[..67]).unwrap_err(),
        DecodeError::CalldataTooShort
    );

    let mut bad_selector = calldata.clone();
    bad_selector[0] ^= 1;
    assert_eq!(
        decode_verify_bytes_calldata(&bad_selector).unwrap_err(),
        DecodeError::InvalidSelector
    );

    let mut bad_offset = calldata.clone();
    bad_offset[4 + 31] = 64;
    assert_eq!(
        decode_verify_bytes_calldata(&bad_offset).unwrap_err(),
        DecodeError::InvalidAbiOffset
    );

    let mut high_bytes = calldata.clone();
    high_bytes[4] = 1;
    assert_eq!(
        decode_verify_bytes_calldata(&high_bytes).unwrap_err(),
        DecodeError::AbiWordHighBytes
    );

    let mut too_long = calldata.clone();
    too_long[4 + 63] = 200;
    assert_eq!(
        decode_verify_bytes_calldata(&too_long).unwrap_err(),
        DecodeError::AbiLengthOutOfBounds
    );

    let mut huge = calldata.clone();
    for b in &mut huge[4 + 56..4 + 64] {
        *b = 0xff;
    }
    assert_eq!(
        decode_verify_bytes_calldata(&huge).unwrap_err(),
        DecodeError::AbiLengthOverflow
    );

    let mut bad_padding = calldata.clone();
    let last = bad_padding.len() - 1;
    bad_padding[last] = 1;
    assert_eq!(
        decode_verify_bytes_calldata(&bad_padding).unwrap_err(),
        DecodeError::NonZeroPadding
    );

    let mut short_length = calldata.clone();
    short_length[4 + 63] = 10;
    assert_eq!(
        decode_verify_bytes_calldata(&short_length).unwrap_err(),
        DecodeError::TrailingCalldata
    );
}

#[test]
fn abi_words() {
    let w = encode_abi_word_usize(0x0102);
    assert!(w[..30].iter().all(|&b| b == 0));
    assert_eq!(&w[30..], &[0x01, 0x02]);
    assert_eq!(decode_abi_word_usize(&w), Ok(0x0102));
    assert_eq!(decode_abi_word_usize(&w[..31]), Err(DecodeError::AbiWordLength));
    let mut high = w;
    high[0] = 1;
    assert_eq!(decode_abi_word_usize(&high), Err(DecodeError::AbiWordHighBytes));
    let max = encode_abi_word_usize(usize::MAX);
    assert_eq!(decode_abi_word_usize(&max), Ok(usize::MAX));
}

#[test]
fn pad32_rounds_up() {
    assert_eq!(pad32(0), 0);
    assert_eq!(pad32(1), 32);
    assert_eq!(pad32(32), 32);
    assert_eq!(pad32(33), 64);
    assert_eq!(pad32(77), 96);
}

#[test]
fn abi_single_bytes_layout() {
    let out = abi_encode_single_bytes(&[9; 40]);
    assert_eq!(out.len(), 64 + 64);
    assert_eq!(out[31], 32);
    assert_eq!(out[63], 40);
    assert!(out[64..104].iter().all(|&b| b == 9));
    assert!(out[104..].iter().all(|&b| b == 0));
}

#[test]
fn verify_function_signature() {
    assert_eq!(VERIFY_FUNCTION, "verify(bytes)");
}
