//! ABI calldata for the on-chain `verify(bytes)` entry point.
use crate::blob::{bytes_equal, DecodeError};
use crate::bytes::{be64, be64_at, lemma_be64_of_value, lemma_be64_roundtrip};
use crate::keccak::{keccak256, keccak256_hash_iter};
use vstd::prelude::*;

verus! {

/// Solidity signature of the verifier entry point.
pub const VERIFY_FUNCTION: &'static str = "verify(bytes)";

/// The ASCII bytes of `verify(bytes)`.
pub open spec fn verify_function_bytes() -> Seq<u8> {
    seq![0x76u8, 0x65u8, 0x72u8, 0x69u8, 0x66u8, 0x79u8, 0x28u8, 0x62u8, 0x79u8, 0x74u8, 0x65u8, 0x73u8, 0x29u8]
}

/// The function selector: the first four bytes of the Keccak-256 of the signature.
pub open spec fn selector() -> Seq<u8> {
    Seq::new(4, |i: int| keccak256(verify_function_bytes())[i])
}

/// `len` rounded up to a multiple of 32.
pub open spec fn padded_len(len: nat) -> nat {
    if len % 32 == 0 {
        len
    } else {
        (len + (32 - len % 32)) as nat
    }
}

/// A 32-byte ABI word holding `v`: 24 zero bytes, then `v` as a big-endian 64-bit integer.
pub open spec fn abi_word(v: u64) -> Seq<u8> {
    Seq::new(24, |i: int| 0u8) + be64(v)
}

/// `n` zero bytes.
pub open spec fn zeros(n: nat) -> Seq<u8> {
    Seq::new(n, |i: int| 0u8)
}

/// ABI encoding of a single `bytes` argument: offset word (32), length word, the data, zero
/// padding to a multiple of 32.
pub open spec fn abi_single_bytes(b: Seq<u8>) -> Seq<u8> {
    abi_word(32) + abi_word(b.len() as u64) + b + zeros((padded_len(b.len()) - b.len()) as nat)
}

/// Calldata of `verify(bytes)` applied to `b`.
pub open spec fn calldata_of(b: Seq<u8>) -> Seq<u8> {
    selector() + abi_single_bytes(b)
}

/// Rounds a length up to a multiple of 32.
pub fn pad32(len: usize) -> (r: usize)
    requires
        padded_len(len as nat) <= usize::MAX,
    ensures
        r == padded_len(len as nat),
{
    let rem = len % 32;
    if rem == 0 {
        len
    } else {
        len + (32 - rem)
    }
}

/// The ABI word holding `value`.
pub fn encode_abi_word_usize(value: usize) -> (out: [u8; 32])
    ensures
        out@ == abi_word(value as u64),
{
    let v = value as u64;
    let mut out = [0u8; 32];
    out[24] = (v >> 56u64) as u8;
    out[25] = (v >> 48u64) as u8;
    out[26] = (v >> 40u64) as u8;
    out[27] = (v >> 32u64) as u8;
    out[28] = (v >> 24u64) as u8;
    out[29] = (v >> 16u64) as u8;
    out[30] = (v >> 8u64) as u8;
    out[31] = v as u8;
    assert(out@ =~= abi_word(value as u64));
    out
}

/// What reading an ABI word as a `usize` gives.
pub open spec fn parse_abi_word(w: Seq<u8>) -> Result<usize, DecodeError> {
    if w.len() != 32 {
        Err(DecodeError::AbiWordLength)
    } else if exists|i: int| 0 <= i < 24 && w[i] != 0 {
        Err(DecodeError::AbiWordHighBytes)
    } else if be64_at(w, 24) > usize::MAX as u64 {
        Err(DecodeError::AbiWordTooLarge)
    } else {
        Ok(be64_at(w, 24) as usize)
    }
}

/// Reads an ABI word as a `usize`.
pub fn decode_abi_word_usize(bytes: &[u8]) -> (res: Result<usize, DecodeError>)
    ensures
        res == parse_abi_word(bytes@),
{
    if bytes.len() != 32 {
        return Err(DecodeError::AbiWordLength);
    }
    let mut i: usize = 0;
    while i < 24
        invariant
            bytes@.len() == 32,
            i <= 24,
            forall|k: int| 0 <= k < i ==> bytes@[k] == 0,
        decreases 24 - i,
    {
        if bytes[i] != 0 {
            return Err(DecodeError::AbiWordHighBytes);
        }
        i = i + 1;
    }
    let value: u64 = ((bytes[24] as u64) << 56u64) | ((bytes[25] as u64) << 48u64) | ((
    bytes[26] as u64) << 40u64) | ((bytes[27] as u64) << 32u64) | ((bytes[28] as u64) << 24u64)
        | ((bytes[29] as u64) << 16u64) | ((bytes[30] as u64) << 8u64) | (bytes[31] as u64);
    if value > usize::MAX as u64 {
        return Err(DecodeError::AbiWordTooLarge);
    }
    Ok(value as usize)
}

/// ABI-encodes a single `bytes` argument.
pub fn abi_encode_single_bytes(bytes: &[u8]) -> (out: Vec<u8>)
    requires
        64 + padded_len(bytes@.len()) <= usize::MAX,
    ensures
        out@ == abi_single_bytes(bytes@),
{
    let total = 64 + pad32(bytes.len());
    let mut out: Vec<u8> = Vec::new();
    let w0 = encode_abi_word_usize(32);
    let w1 = encode_abi_word_usize(bytes.len());
    let mut i: usize = 0;
    while i < 32
        invariant
            i <= 32,
            out@ == w0@.subrange(0, i as int),
        decreases 32 - i,
    {
        out.push(w0[i]);
        i = i + 1;
        assert(out@ =~= w0@.subrange(0, i as int));
    }
    let mut i: usize = 0;
    while i < 32
        invariant
            i <= 32,
            out@ == w0@ + w1@.subrange(0, i as int),
        decreases 32 - i,
    {
        out.push(w1[i]);
        i = i + 1;
        assert(out@ =~= w0@ + w1@.subrange(0, i as int));
    }
    let mut i: usize = 0;
    while i < bytes.len()
        invariant
            i <= bytes@.len(),
            out@ == w0@ + w1@ + bytes@.subrange(0, i as int),
        decreases bytes@.len() - i,
    {
        out.push(bytes[i]);
        i = i + 1;
        assert(out@ =~= w0@ + w1@ + bytes@.subrange(0, i as int));
    }
    assert(bytes@.subrange(0, bytes@.len() as int) =~= bytes@);
    let ghost body = out@;
    while out.len() < total
        invariant
            body == w0@ + w1@ + bytes@,
            body.len() <= out@.len() <= total,
            total == 64 + padded_len(bytes@.len()),
            out@.subrange(0, body.len() as int) == body,
            forall|k: int| body.len() <= k < out@.len() ==> out@[k] == 0,
        decreases total - out@.len(),
    {
        out.push(0u8);
    }
    assert(out@ =~= abi_single_bytes(bytes@));
    out
}

/// The selector of `verify(bytes)`.
pub fn verify_bytes_selector() -> (sel: [u8; 4])
    ensures
        sel@ == selector(),
{
    proof {
        reveal_strlit("verify(bytes)");
    }
    let sig = "verify(bytes)".as_bytes_vec();
    proof {
        vstd::string::is_ascii_spec_bytes("verify(bytes)");
        assert(vstd::string::is_ascii("verify(bytes)"));
        assert(sig@ =~= verify_function_bytes());
    }
    let hash = keccak256_hash_iter(sig.as_slice());
    let sel = [hash[0], hash[1], hash[2], hash[3]];
    assert(sel@ =~= selector());
    sel
}

/// Calldata calling `verify(bytes)` on a proof blob.
pub fn encode_calldata_verify_bytes(proof_blob: &[u8]) -> (out: Vec<u8>)
    requires
        68 + padded_len(proof_blob@.len()) <= usize::MAX,
    ensures
        out@ == calldata_of(proof_blob@),
{
    let selector = verify_bytes_selector();
    let encoded_args = abi_encode_single_bytes(proof_blob);
    let mut out: Vec<u8> = Vec::new();
    out.push(selector[0]);
    out.push(selector[1]);
    out.push(selector[2]);
    out.push(selector[3]);
    let mut i: usize = 0;
    while i < encoded_args.len()
        invariant
            i <= encoded_args@.len(),
            out@ == selector@ + encoded_args@.subrange(0, i as int),
        decreases encoded_args@.len() - i,
    {
        out.push(encoded_args[i]);
        i = i + 1;
        assert(out@ =~= selector@ + encoded_args@.subrange(0, i as int));
    }
    assert(encoded_args@.subrange(0, encoded_args@.len() as int) =~= encoded_args@);
    out
}


/// What decoding `verify(bytes)` calldata gives: the `bytes` argument, or why the calldata is
/// rejected. The argument must be the only one, at offset 32, with zero padding up to a
/// multiple of 32 bytes and nothing after it.
pub open spec fn parse_calldata(c: Seq<u8>) -> Result<Seq<u8>, DecodeError> {
    if c.len() < 68 {
        Err(DecodeError::CalldataTooShort)
    } else if c.subrange(0, 4) != selector() {
        Err(DecodeError::InvalidSelector)
    } else {
        let args = c.subrange(4, c.len() as int);
        match parse_abi_word(args.subrange(0, 32)) {
            Err(e) => Err(e),
            Ok(offset) => if offset != 32 {
                Err(DecodeError::InvalidAbiOffset)
            } else {
                match parse_abi_word(args.subrange(32, 64)) {
                    Err(e) => Err(e),
                    Ok(length) => if 64 + length > usize::MAX {
                        Err(DecodeError::AbiLengthOverflow)
                    } else if 64 + length > args.len() {
                        Err(DecodeError::AbiLengthOutOfBounds)
                    } else if 64 + padded_len(length as nat) > usize::MAX {
                        Err(DecodeError::AbiPaddedLengthOverflow)
                    } else if 64 + padded_len(length as nat) != args.len() {
                        Err(DecodeError::TrailingCalldata)
                    } else if exists|i: int| 64 + length <= i < args.len() && args[i] != 0 {
                        Err(DecodeError::NonZeroPadding)
                    } else {
                        Ok(args.subrange(64, 64 + length))
                    },
                }
            },
        }
    }
}

/// Decodes `verify(bytes)` calldata back to its `bytes` argument.
#[verifier::loop_isolation(false)]
pub fn decode_verify_bytes_calldata(calldata: &[u8]) -> (res: Result<Vec<u8>, DecodeError>)
    requires
        calldata@.len() <= isize::MAX,
    ensures
        match parse_calldata(calldata@) {
            Ok(b) => res is Ok && res->Ok_0@ == b,
            Err(e) => res == Err::<Vec<u8>, DecodeError>(e),
        },
{
    if calldata.len() < 4 + 64 {
        return Err(DecodeError::CalldataTooShort);
    }
    let sel = verify_bytes_selector();
    if !bytes_equal(&calldata[0..4], sel.as_slice()) {
        return Err(DecodeError::InvalidSelector);
    }
    let args = &calldata[4..calldata.len()];
    let offset = decode_abi_word_usize(&args[0..32])?;
    if offset != 32 {
        return Err(DecodeError::InvalidAbiOffset);
    }
    let length = decode_abi_word_usize(&args[32..64])?;
    let data_start: usize = 64;
    let data_end = match data_start.checked_add(length) {
        Some(e) => e,
        None => {
            return Err(DecodeError::AbiLengthOverflow);
        },
    };
    if data_end > args.len() {
        return Err(DecodeError::AbiLengthOutOfBounds);
    }
    let padded_end = match data_start.checked_add(pad32(length)) {
        Some(e) => e,
        None => {
            return Err(DecodeError::AbiPaddedLengthOverflow);
        },
    };
    if padded_end != args.len() {
        return Err(DecodeError::TrailingCalldata);
    }
    let mut i = data_end;
    while i < args.len()
        invariant
            data_end <= i <= args@.len(),
            forall|k: int| data_end <= k < i ==> args@[k] == 0,
        decreases args@.len() - i,
    {
        if args[i] != 0 {
            assert(args@ =~= calldata@.subrange(4, calldata@.len() as int));
            assert(args@[i as int] != 0);
            return Err(DecodeError::NonZeroPadding);
        }
        i = i + 1;
    }
    let data = &args[data_start..data_end];
    Ok(vstd::slice::slice_to_vec(data))
}

/// Reading back an ABI word gives the value it was written with, when that value fits a
/// `usize`.
proof fn lemma_parse_abi_word(v: u64)
    requires
        v <= usize::MAX,
    ensures
        parse_abi_word(abi_word(v)) == Ok::<usize, DecodeError>(v as usize),
{
    let w = abi_word(v);
    assert(w.subrange(24, 32) =~= be64(v));
    lemma_be64_roundtrip(v, w, 24);
    assert(!exists|i: int| 0 <= i < 24 && w[i] != 0);
}

/// Decoding the calldata that `verify(bytes)` is called with gives back its argument.
pub proof fn lemma_calldata_roundtrip(b: Seq<u8>)
    requires
        68 + padded_len(b.len()) <= usize::MAX,
    ensures
        parse_calldata(calldata_of(b)) == Ok::<Seq<u8>, DecodeError>(b),
{
    let c = calldata_of(b);
    let args = c.subrange(4, c.len() as int);
    assert(args =~= abi_single_bytes(b));
    assert(c.subrange(0, 4) =~= selector());
    lemma_parse_abi_word(32);
    lemma_parse_abi_word(b.len() as u64);
    assert(args.subrange(0, 32) =~= abi_word(32));
    assert(args.subrange(32, 64) =~= abi_word(b.len() as u64));
    assert(args.subrange(64, 64 + b.len() as int) =~= b);
}

/// Calldata with bytes after the padded argument is refused as trailing calldata.
pub proof fn lemma_calldata_trailing_rejected(b: Seq<u8>, extra: Seq<u8>)
    requires
        extra.len() > 0,
        68 + padded_len(b.len()) + extra.len() <= usize::MAX,
    ensures
        parse_calldata(calldata_of(b) + extra) == Err::<Seq<u8>, DecodeError>(
            DecodeError::TrailingCalldata,
        ),
{
    let c = calldata_of(b) + extra;
    let args = c.subrange(4, c.len() as int);
    assert(args =~= abi_single_bytes(b) + extra);
    assert(c.subrange(0, 4) =~= selector());
    lemma_parse_abi_word(32);
    lemma_parse_abi_word(b.len() as u64);
    assert(args.subrange(0, 32) =~= abi_word(32));
    assert(args.subrange(32, 64) =~= abi_word(b.len() as u64));
}

/// An ABI word read as `v` is the ABI word of `v`: only the canonical form is read.
proof fn lemma_abi_word_canonical(w: Seq<u8>)
    requires
        parse_abi_word(w) is Ok,
    ensures
        w == abi_word(parse_abi_word(w)->Ok_0 as u64),
{
    lemma_be64_of_value(w, 24);
    let v = be64_at(w, 24);
    assert(parse_abi_word(w)->Ok_0 as u64 == v);
    assert forall|i: int| 0 <= i < 24 implies w[i] == 0u8 by {
        if w[i] != 0 {
            assert(exists|j: int| 0 <= j < 24 && w[j] != 0);
        }
    }
    assert(w =~= abi_word(v));
}

/// The decoder accepts exactly what the encoder writes: calldata that decodes to `b` is the
/// calldata of `verify(bytes)` applied to `b`.
pub proof fn lemma_calldata_canonical(c: Seq<u8>)
    requires
        parse_calldata(c) is Ok,
    ensures
        c == calldata_of(parse_calldata(c)->Ok_0),
{
    let args = c.subrange(4, c.len() as int);
    let b = parse_calldata(c)->Ok_0;
    lemma_abi_word_canonical(args.subrange(0, 32));
    lemma_abi_word_canonical(args.subrange(32, 64));
    let length = parse_abi_word(args.subrange(32, 64))->Ok_0;
    assert(b == args.subrange(64, 64 + length));
    assert forall|i: int| 64 + length <= i < args.len() implies args[i] == 0u8 by {
        if args[i] != 0 {
            assert(exists|j: int| 64 + length <= j < args.len() && args[j] != 0);
        }
    }
    assert(args =~= abi_single_bytes(b));
    assert(c =~= calldata_of(b));
}

} // verus!
