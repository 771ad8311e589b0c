//! Text renderings: `0x`-prefixed lowercase hex and the JSON payload that carries a proof
//! blob and its calldata.
use crate::calldata::{selector, verify_bytes_selector, VERIFY_FUNCTION};
use vstd::prelude::*;

verus! {

/// Name of the JSON payload format.
pub const JSON_SCHEMA: &'static str = "p3-hyperplonk-evm-proof-v2";

/// How Merkle commitments are hashed: Keccak-256 over domain-separated leaves of big-endian
/// 32-bit limbs and over bytes32 node pairs.
pub const KECCAK_MODE: &'static str = "keccak256-u32be";

/// The label of the Keccak hashing mode.
pub fn keccak_mode_label() -> (label: &'static str)
    ensures
        label@ == KECCAK_MODE@,
{
    KECCAK_MODE
}

/// How many hashes the prover and the verifier computed.
#[derive(Clone, Copy, Debug, PartialEq, Eq, Structural)]
pub struct HashCounts {
    pub prover: u64,
    pub verifier: u64,
}

/// The lowercase hex digit of a nibble.
pub open spec fn hex_digit(n: u8) -> char {
    if n < 10 {
        (48 + n) as char
    } else {
        (87 + n) as char
    }
}

/// Two lowercase hex digits per byte, high nibble first.
pub open spec fn hex_chars(b: Seq<u8>) -> Seq<char>
    decreases b.len(),
{
    if b.len() == 0 {
        Seq::empty()
    } else {
        hex_chars(b.drop_last()) + seq![hex_digit(b.last() >> 4u8), hex_digit(b.last() & 0x0fu8)]
    }
}

/// `0x` followed by the lowercase hex digits of `b`.
pub open spec fn hex_text(b: Seq<u8>) -> Seq<char> {
    seq!['0', 'x'] + hex_chars(b)
}

/// The decimal digits of `n`, without leading zeros.
pub open spec fn dec_text(n: nat) -> Seq<char>
    decreases n,
{
    if n < 10 {
        seq![(48 + n) as char]
    } else {
        dec_text(n / 10).push((48 + n % 10) as char)
    }
}

/// Calls `String::push`, documented as appending the character to the end of the string.
#[verifier::external_body]
fn push_char(s: &mut String, c: char)
    ensures
        final(s)@ == old(s)@.push(c),
{
    s.push(c);
}

fn hex_digit_char(n: u8) -> (c: char)
    requires
        n < 16,
    ensures
        c == hex_digit(n),
{
    if n < 10 {
        (48u8 + n) as char
    } else {
        (87u8 + n) as char
    }
}

/// `bytes` as `0x` and two lowercase hex digits per byte.
pub fn hex_prefixed(bytes: &[u8]) -> (out: String)
    ensures
        out@ == hex_text(bytes@),
{
    let mut out = String::new();
    push_char(&mut out, '0');
    push_char(&mut out, 'x');
    let mut i: usize = 0;
    while i < bytes.len()
        invariant
            i <= bytes@.len(),
            out@ == hex_text(bytes@.subrange(0, i as int)),
        decreases bytes@.len() - i,
    {
        let byte = bytes[i];
        assert(byte >> 4u8 < 16) by (bit_vector);
        assert(byte & 0x0fu8 < 16) by (bit_vector);
        push_char(&mut out, hex_digit_char(byte >> 4u8));
        push_char(&mut out, hex_digit_char(byte & 0x0fu8));
        proof {
            let next = bytes@.subrange(0, i + 1);
            assert(next.drop_last() =~= bytes@.subrange(0, i as int));
            assert(next.last() == byte);
        }
        i = i + 1;
    }
    assert(bytes@.subrange(0, bytes@.len() as int) =~= bytes@);
    out
}

/// Appends the decimal digits of `n`.
fn push_decimal(out: &mut String, n: u128)
    ensures
        final(out)@ == old(out)@ + dec_text(n as nat),
    decreases n,
{
    if n >= 10 {
        push_decimal(out, n / 10);
    }
    let d = (n % 10) as u8;
    push_char(out, (48u8 + d) as char);
    assert(final(out)@ =~= old(out)@ + dec_text(n as nat)) by {
        if n >= 10 {
            assert(dec_text(n as nat) == dec_text((n / 10) as nat).push((48 + n % 10) as char));
        }
    }
}

/// The JSON payload describing a proof blob, the calldata carrying it, the hashing mode and
/// the hash counts (with their total): one line, or indented over several lines ending in a
/// newline when `pretty`.
pub open spec fn json_payload(
    proof_blob: Seq<u8>,
    calldata: Seq<u8>,
    pretty: bool,
    counts: HashCounts,
) -> Seq<char> {
    let total = counts.prover + counts.verifier;
    if pretty {
        "{\n  \"schema\": \""@ + JSON_SCHEMA@ + "\",\n  \"verify_function\": \""@
            + VERIFY_FUNCTION@ + "\",\n  \"keccak_mode\": \""@ + KECCAK_MODE@
            + "\",\n  \"selector\": \""@ + hex_text(selector())
            + "\",\n  \"proof_bytes\": \""@ + hex_text(proof_blob) + "\",\n  \"proof_bytes_len\": "@
            + dec_text(proof_blob.len()) + ",\n  \"calldata\": \""@ + hex_text(calldata)
            + "\",\n  \"calldata_len\": "@ + dec_text(calldata.len())
            + ",\n  \"hash_counts_prover\": "@ + dec_text(counts.prover as nat)
            + ",\n  \"hash_counts_verifier\": "@ + dec_text(counts.verifier as nat)
            + ",\n  \"hash_counts_total\": "@ + dec_text(total as nat) + "\n}\n"@
    } else {
        "{\"schema\":\""@ + JSON_SCHEMA@ + "\",\"verify_function\":\""@ + VERIFY_FUNCTION@
            + "\",\"keccak_mode\":\""@ + KECCAK_MODE@
            + "\",\"selector\":\""@ + hex_text(selector()) + "\",\"proof_bytes\":\""@
            + hex_text(proof_blob) + "\",\"proof_bytes_len\":"@ + dec_text(proof_blob.len())
            + ",\"calldata\":\""@ + hex_text(calldata) + "\",\"calldata_len\":"@
            + dec_text(calldata.len()) + ",\"hash_counts_prover\":"@
            + dec_text(counts.prover as nat) + ",\"hash_counts_verifier\":"@
            + dec_text(counts.verifier as nat) + ",\"hash_counts_total\":"@
            + dec_text(total as nat) + "}"@
    }
}

/// Renders the JSON payload for a proof blob, its calldata and the hash counts of proving and
/// verifying it.
pub fn render_json_payload(
    proof_blob: &[u8],
    calldata: &[u8],
    pretty: bool,
    counts: HashCounts,
) -> (out: String)
    ensures
        out@ == json_payload(proof_blob@, calldata@, pretty, counts),
{
    let selector = verify_bytes_selector();
    let selector_hex = hex_prefixed(selector.as_slice());
    let proof_hex = hex_prefixed(proof_blob);
    let calldata_hex = hex_prefixed(calldata);
    let total: u128 = counts.prover as u128 + counts.verifier as u128;
    let mut out = String::new();
    if pretty {
        out.append("{\n  \"schema\": \"");
        out.append(JSON_SCHEMA);
        out.append("\",\n  \"verify_function\": \"");
        out.append(VERIFY_FUNCTION);
        out.append("\",\n  \"keccak_mode\": \"");
        out.append(KECCAK_MODE);
        out.append("\",\n  \"selector\": \"");
        out.append(selector_hex.as_str());
        out.append("\",\n  \"proof_bytes\": \"");
        out.append(proof_hex.as_str());
        out.append("\",\n  \"proof_bytes_len\": ");
        push_decimal(&mut out, proof_blob.len() as u128);
        out.append(",\n  \"calldata\": \"");
        out.append(calldata_hex.as_str());
        out.append("\",\n  \"calldata_len\": ");
        push_decimal(&mut out, calldata.len() as u128);
        out.append(",\n  \"hash_counts_prover\": ");
        push_decimal(&mut out, counts.prover as u128);
        out.append(",\n  \"hash_counts_verifier\": ");
        push_decimal(&mut out, counts.verifier as u128);
        out.append(",\n  \"hash_counts_total\": ");
        push_decimal(&mut out, total);
        out.append("\n}\n");
    } else {
        out.append("{\"schema\":\"");
        out.append(JSON_SCHEMA);
        out.append("\",\"verify_function\":\"");
        out.append(VERIFY_FUNCTION);
        out.append("\",\"keccak_mode\":\"");
        out.append(KECCAK_MODE);
        out.append("\",\"selector\":\"");
        out.append(selector_hex.as_str());
        out.append("\",\"proof_bytes\":\"");
        out.append(proof_hex.as_str());
        out.append("\",\"proof_bytes_len\":");
        push_decimal(&mut out, proof_blob.len() as u128);
        out.append(",\"calldata\":\"");
        out.append(calldata_hex.as_str());
        out.append("\",\"calldata_len\":");
        push_decimal(&mut out, calldata.len() as u128);
        out.append(",\"hash_counts_prover\":");
        push_decimal(&mut out, counts.prover as u128);
        out.append(",\"hash_counts_verifier\":");
        push_decimal(&mut out, counts.verifier as u128);
        out.append(",\"hash_counts_total\":");
        push_decimal(&mut out, total);
        out.append("}");
    }
    assert(out@ =~= json_payload(proof_blob@, calldata@, pretty, counts));
    out
}

} // verus!
