use hyperplonk_evm::blob::{encode_varuint, BlobReader, BlobWriter, DecodeError};
use hyperplonk_evm::field::Challenge;

#[test]
fn varuint_encodings() {
    let cases: [(usize, &[u8]); 6] = [
        (0, &[0x00]),
        (1, &[0x01]),
        (127, &[0x7f]),
        (128, &[0x80, 0x01]),
        (300, &[0xac, 0x02]),
        (16384, &[0x80, 0x80, 0x01]),
    ];
    for (value, bytes) in cases {
        let mut out = vec![0xee];
        encode_varuint(value, &mut out);
        assert_eq!(&out[1..], bytes);
        assert_eq!(out[0], 0xee);
    }
}

#[test]
fn writer_reader_roundtrip() {
    let mut writer = BlobWriter::new();
    writer.write_u8(7);
    writer.write_len(300);
    writer.write_val(0x0102_0304);
    let c = Challenge { c0: 1, c1: 2, c2: 3, c3: 4 };
    let mut offset = None;
    writer.write_challenge_marked(c, &mut offset);
    assert_eq!(offset, Some(1 + 2 + 4));
    writer.write_challenge_marked(c, &mut offset);
    assert_eq!(offset, Some(7));
    writer.write_digest(&[1, 2, 3, 4]);
    assert!(writer.write_option(&Some(5u8)));
    assert!(!writer.write_option::<u8>(&None));
    assert_eq!(writer.pos(), 1 + 2 + 4 + 16 + 16 + 32 + 2);
    let bytes = writer.finish();

    let mut reader = BlobReader::new(&bytes);
    assert_eq!(reader.read_u8(), Ok(7));
    assert_eq!(reader.read_len(), Ok(300));
    assert_eq!(reader.read_val(), Ok(0x0102_0304));
    assert_eq!(reader.read_challenge(), Ok(c));
    assert_eq!(reader.read_challenge(), Ok(c));
    assert_eq!(reader.read_digest(), Ok([1, 2, 3, 4]));
    assert_eq!(reader.read_option(), Ok(true));
    assert_eq!(reader.read_option(), Ok(false));
    assert!(reader.is_eof());
    assert_eq!(reader.read_u8(), Err(DecodeError::UnexpectedEnd));
}

#[test]
fn reader_rejects_bad_lengths_and_tags() {
    let bytes = [0x80u8, 0x00];
    assert_eq!(BlobReader::new(&bytes).read_len(), Err(DecodeError::NonCanonicalVaruint));
    let bytes = [0x80u8];
    assert_eq!(BlobReader::new(&bytes).read_len(), Err(DecodeError::UnexpectedEnd));
    let bytes = [0xffu8; 10];
    assert_eq!(BlobReader::new(&bytes).read_len(), Err(DecodeError::VaruintOverflow));
    let bytes = [2u8];
    assert_eq!(BlobReader::new(&bytes).read_option(), Err(DecodeError::UnknownOptionTag));
    let bytes = [1u8, 2, 3];
    let mut reader = BlobReader::new(&bytes);
    assert_eq!(reader.read_exact(4), Err(DecodeError::UnexpectedEnd));
    assert_eq!(reader.read_exact(2), Ok(&bytes[..2]));
}

#[test]
fn read_val_reduces_modulo_prime() {
    let bytes = [0xffu8, 0xff, 0xff, 0xff];
    assert_eq!(BlobReader::new(&bytes).read_val(), Ok(0xffff_ffff % 0x7f00_0001));
}

#[test]
fn error_messages() {
    assert_eq!(DecodeError::TrailingBytes.message(), "trailing bytes after proof payload");
    assert_eq!(DecodeError::new(DecodeError::InvalidSelector), DecodeError::InvalidSelector);
    assert_eq!(DecodeError::InvalidSelector.message(), "invalid verify(bytes) selector");
}
