//! Proof blob primitives: decoding errors, canonical varuint lengths, the reader and the
//! writer, and the fields a blob is written as.
use crate::bytes::{be32, be32_at};
use crate::field::{koala_bear_from_u32, Challenge, KOALA_BEAR_PRIME};
use crate::keccak::{digest_bytes, digest_bytes32_to_u64, digest_words};
use vstd::prelude::*;

verus! {

/// Why a proof blob or a `verify(bytes)` calldata was rejected.
#[derive(Clone, Copy, Debug, PartialEq, Eq, Structural)]
pub enum DecodeError {
    UnexpectedEnd,
    VaruintOverflow,
    LengthTooLarge,
    NonCanonicalVaruint,
    UnknownOptionTag,
    InvalidMagic,
    UnsupportedVersion,
    TrailingBytes,
    FinalPolyNotPowerOfTwo,
    UnknownQueryTag,
    CalldataTooShort,
    InvalidSelector,
    InvalidAbiOffset,
    AbiLengthOverflow,
    AbiLengthOutOfBounds,
    AbiPaddedLengthOverflow,
    TrailingCalldata,
    NonZeroPadding,
    AbiWordLength,
    AbiWordHighBytes,
    AbiWordTooLarge,
}

/// The human-readable message of an error.
pub open spec fn error_message(e: DecodeError) -> Seq<char> {
    match e {
        DecodeError::UnexpectedEnd => "unexpected end of input"@,
        DecodeError::VaruintOverflow => "varuint overflow"@,
        DecodeError::LengthTooLarge => "length does not fit in usize"@,
        DecodeError::NonCanonicalVaruint => "non-canonical varuint encoding"@,
        DecodeError::UnknownOptionTag => "unknown option tag"@,
        DecodeError::InvalidMagic => "invalid proof blob magic"@,
        DecodeError::UnsupportedVersion => "unsupported proof blob version"@,
        DecodeError::TrailingBytes => "trailing bytes after proof payload"@,
        DecodeError::FinalPolyNotPowerOfTwo => "final_poly length must be a power of two"@,
        DecodeError::UnknownQueryTag => "unknown query opening tag"@,
        DecodeError::CalldataTooShort => "calldata too short"@,
        DecodeError::InvalidSelector => "invalid verify(bytes) selector"@,
        DecodeError::InvalidAbiOffset => "invalid ABI offset for single bytes argument"@,
        DecodeError::AbiLengthOverflow => "ABI length overflow"@,
        DecodeError::AbiLengthOutOfBounds => "ABI bytes length out of bounds"@,
        DecodeError::AbiPaddedLengthOverflow => "ABI padded length overflow"@,
        DecodeError::TrailingCalldata => "unexpected trailing data in calldata"@,
        DecodeError::NonZeroPadding => "non-zero ABI padding"@,
        DecodeError::AbiWordLength => "ABI word must be exactly 32 bytes"@,
        DecodeError::AbiWordHighBytes => "ABI word exceeds usize range (high bytes must be zero)"@,
        DecodeError::AbiWordTooLarge => "ABI word does not fit usize"@,
    }
}

impl DecodeError {
    /// Builds an error of the given kind.
    pub fn new(kind: DecodeError) -> (e: DecodeError)
        ensures
            e == kind,
    {
        kind
    }

    /// The human-readable message of the error.
    pub fn message(&self) -> (m: &'static str)
        ensures
            m@ == error_message(*self),
    {
        match self {
            DecodeError::UnexpectedEnd => "unexpected end of input",
            DecodeError::VaruintOverflow => "varuint overflow",
            DecodeError::LengthTooLarge => "length does not fit in usize",
            DecodeError::NonCanonicalVaruint => "non-canonical varuint encoding",
            DecodeError::UnknownOptionTag => "unknown option tag",
            DecodeError::InvalidMagic => "invalid proof blob magic",
            DecodeError::UnsupportedVersion => "unsupported proof blob version",
            DecodeError::TrailingBytes => "trailing bytes after proof payload",
            DecodeError::FinalPolyNotPowerOfTwo => "final_poly length must be a power of two",
            DecodeError::UnknownQueryTag => "unknown query opening tag",
            DecodeError::CalldataTooShort => "calldata too short",
            DecodeError::InvalidSelector => "invalid verify(bytes) selector",
            DecodeError::InvalidAbiOffset => "invalid ABI offset for single bytes argument",
            DecodeError::AbiLengthOverflow => "ABI length overflow",
            DecodeError::AbiLengthOutOfBounds => "ABI bytes length out of bounds",
            DecodeError::AbiPaddedLengthOverflow => "ABI padded length overflow",
            DecodeError::TrailingCalldata => "unexpected trailing data in calldata",
            DecodeError::NonZeroPadding => "non-zero ABI padding",
            DecodeError::AbiWordLength => "ABI word must be exactly 32 bytes",
            DecodeError::AbiWordHighBytes => "ABI word exceeds usize range (high bytes must be zero)",
            DecodeError::AbiWordTooLarge => "ABI word does not fit usize",
        }
    }
}

// ---------------------------------------------------------------------------------------------
// Unsigned LEB128 ("varuint") lengths.
// ---------------------------------------------------------------------------------------------

/// The canonical (shortest) unsigned LEB128 encoding of `x`: seven bits per byte, least
/// significant group first, the high bit set on every byte but the last.
pub open spec fn varuint(x: u64) -> Seq<u8>
    decreases x,
{
    if x < 128 {
        seq![x as u8]
    } else {
        proof {
            assert(x >= 128 ==> (x >> 7u64) < x) by (bit_vector);
        }
        seq![((x & 0x7fu64) | 0x80u64) as u8] + varuint(x >> 7u64)
    }
}

/// Appends the canonical varuint encoding of `value`.
pub fn encode_varuint(value: usize, out: &mut Vec<u8>)
    ensures
        final(out)@ == old(out)@ + varuint(value as u64),
{
    let mut v: u64 = value as u64;
    loop
        invariant_except_break
            old(out)@ + varuint(value as u64) == out@ + varuint(v),
        ensures
            out@ == old(out)@ + varuint(value as u64),
        decreases v,
    {
        let low: u8 = (v & 0x7fu64) as u8;
        let ghost v0 = v;
        v = v >> 7u64;
        if v == 0 {
            assert(v0 < 128 && low == v0 as u8) by (bit_vector)
                requires
                    v0 >> 7u64 == 0,
                    low == (v0 & 0x7fu64) as u8,
            ;
            out.push(low);
            assert(out@ =~= old(out)@ + varuint(value as u64));
            break ;
        }
        assert(v0 >= 128 && (low | 0x80u8) == ((v0 & 0x7fu64) | 0x80u64) as u8 && v < v0)
            by (bit_vector)
            requires
                v == v0 >> 7u64,
                v != 0,
                low == (v0 & 0x7fu64) as u8,
        ;
        out.push(low | 0x80u8);
        assert(varuint(v0) == seq![((v0 & 0x7fu64) | 0x80u64) as u8] + varuint(v));
        assert(old(out)@ + varuint(value as u64) =~= out@ + varuint(v));
    }
}

/// The value accumulated from the low seven bits of the first `n` bytes of `s`, exactly as a
/// little-endian base-128 reader does in 64-bit arithmetic.
pub open spec fn varuint_acc(s: Seq<u8>, n: nat) -> u64
    decreases n,
{
    if n == 0 {
        0
    } else {
        varuint_acc(s, (n - 1) as nat) | (((s[n - 1] & 0x7fu8) as u64) << ((7 * (n - 1))
            as u64))
    }
}

/// Index of the first byte at or after `i`, among the first ten bytes of `s`, whose
/// continuation bit is clear.
pub open spec fn varuint_end(s: Seq<u8>, i: nat) -> Option<nat>
    decreases 10 - i,
{
    if i >= 10 || i >= s.len() {
        None
    } else if s[i as int] & 0x80u8 == 0 {
        Some(i)
    } else {
        varuint_end(s, i + 1)
    }
}

/// A length read from the front of `s`: its value and the number of bytes it takes, or why
/// it is rejected. Only the canonical encoding of a value that fits in `usize` is accepted.
pub open spec fn parse_len(s: Seq<u8>) -> Result<(usize, nat), DecodeError> {
    match varuint_end(s, 0) {
        None => if s.len() < 10 {
            Err(DecodeError::UnexpectedEnd)
        } else {
            Err(DecodeError::VaruintOverflow)
        },
        Some(i) => {
            let v = varuint_acc(s, i + 1);
            if v > usize::MAX as u64 {
                Err(DecodeError::LengthTooLarge)
            } else if s.subrange(0, (i + 1) as int) != varuint(v) {
                Err(DecodeError::NonCanonicalVaruint)
            } else {
                Ok((v as usize, i + 1))
            }
        },
    }
}

/// The canonical encoding of any 64-bit value takes one to ten bytes; every byte but the last
/// has its continuation bit set.
pub proof fn lemma_varuint_shape(x: u64)
    ensures
        1 <= varuint(x).len() <= 10,
        varuint(x).last() & 0x80u8 == 0,
        forall|i: int| 0 <= i < varuint(x).len() - 1 ==> varuint(x)[i] & 0x80u8 != 0,
    decreases x,
{
    lemma_varuint_len_bound(x, 10);
    if x < 128 {
        assert((x as u8) & 0x80u8 == 0) by (bit_vector)
            requires
                x < 128,
        ;
    } else {
        assert((x >> 7u64) < x) by (bit_vector)
            requires
                x >= 128,
        ;
        lemma_varuint_shape(x >> 7u64);
        let b = varuint(x);
        let t = varuint(x >> 7u64);
        assert(((((x & 0x7fu64) | 0x80u64) as u8) & 0x80u8) != 0) by (bit_vector);
        assert forall|i: int| 0 <= i < b.len() - 1 implies b[i] & 0x80u8 != 0 by {
            if i > 0 {
                assert(b[i] == t[i - 1]);
            }
        }
        assert(b.last() == t.last());
    }
}

/// A value below `2^(7k)` (any value when `k == 10`) has an encoding of at most `k` bytes.
proof fn lemma_varuint_len_bound(x: u64, k: nat)
    requires
        1 <= k <= 10,
        k == 10 || x >> ((7 * k) as u64) == 0,
    ensures
        varuint(x).len() <= k,
    decreases k,
{
    if x >= 128 {
        let y = x >> 7u64;
        if k == 10 {
            assert((x >> 7u64) >> 63u64 == 0) by (bit_vector);
            lemma_varuint_len_bound(y, 9);
        } else {
            let s = (7 * k) as u64;
            assert(s <= 63);
            assert(((x >> 7u64) >> ((s - 7) as u64)) == 0) by (bit_vector)
                requires
                    x >> s == 0,
                    s <= 63,
                    s >= 7,
            ;
            assert(x >> 7u64 != 0) by (bit_vector)
                requires
                    x >= 128,
            ;
            assert(k >= 2);
            assert((7 * (k - 1)) as u64 == (s - 7) as u64);
            lemma_varuint_len_bound(y, (k - 1) as nat);
        }
    }
}

/// The bytes of the canonical encoding of `x`, read from position `i`, are the encoding of
/// `x >> 7i`.
proof fn lemma_varuint_suffix(x: u64, i: nat)
    requires
        i < varuint(x).len(),
    ensures
        7 * i <= 63,
        varuint(x).subrange(i as int, varuint(x).len() as int) == varuint(x >> ((7 * i) as u64)),
    decreases i,
{
    lemma_varuint_shape(x);
    if i == 0 {
        assert(x >> 0u64 == x) by (bit_vector);
        assert(varuint(x).subrange(0, varuint(x).len() as int) =~= varuint(x));
    } else {
        assert(x >= 128);
        let y = x >> 7u64;
        assert(y < x) by (bit_vector)
            requires
                x >= 128,
                y == x >> 7u64,
        ;
        lemma_varuint_shape(y);
        lemma_varuint_suffix(y, (i - 1) as nat);
        let s = (7 * (i - 1)) as u64;
        assert(s + 7 <= 63);
        assert((x >> 7u64) >> s == x >> ((s + 7) as u64)) by (bit_vector)
            requires
                s + 7 <= 63,
        ;
        assert((7 * i) as u64 == (s + 7) as u64);
        assert(varuint(x).subrange(i as int, varuint(x).len() as int) =~= varuint(y).subrange(
            (i - 1) as int,
            varuint(y).len() as int,
        ));
    }
}

/// The low seven bits of byte `i` of the canonical encoding of `x` are bits `7i..7i+7` of `x`.
proof fn lemma_varuint_byte(x: u64, i: nat)
    requires
        i < varuint(x).len(),
    ensures
        7 * i <= 63,
        (varuint(x)[i as int] & 0x7fu8) as u64 == (x >> ((7 * i) as u64)) & 0x7fu64,
        i + 1 == varuint(x).len() ==> (x >> ((7 * i) as u64)) < 128,
{
    lemma_varuint_suffix(x, i);
    let y = x >> ((7 * i) as u64);
    let t = varuint(y);
    assert(varuint(x)[i as int] == t[0]);
    if y < 128 {
        assert((((y as u8) & 0x7fu8) as u64) == y & 0x7fu64) by (bit_vector)
            requires
                y < 128,
        ;
    } else {
        assert((((((y & 0x7fu64) | 0x80u64) as u8) & 0x7fu8) as u64) == y & 0x7fu64)
            by (bit_vector);
        lemma_varuint_shape(y >> 7u64);
        assert(t.len() >= 2);
    }
}

/// The accumulator after `n` bytes of the encoding of `x` holds the low `7n` bits of `x`.
proof fn lemma_varuint_acc_prefix(x: u64, s: Seq<u8>, n: nat)
    requires
        n <= varuint(x).len(),
        varuint(x).len() <= s.len(),
        s.subrange(0, varuint(x).len() as int) == varuint(x),
    ensures
        n < varuint(x).len() ==> varuint_acc(s, n) == x & (((1u64 << ((7 * n) as u64)) - 1) as u64),
        n == varuint(x).len() ==> varuint_acc(s, n) == x,
    decreases n,
{
    lemma_varuint_shape(x);
    let b = varuint(x);
    if n == 0 {
        assert(x & (((1u64 << 0u64) - 1) as u64) == 0) by (bit_vector);
    } else {
        lemma_varuint_acc_prefix(x, s, (n - 1) as nat);
        lemma_varuint_byte(x, (n - 1) as nat);
        assert(s.subrange(0, b.len() as int)[n - 1] == s[n - 1]);
        let sh = (7 * (n - 1)) as u64;
        let prev = varuint_acc(s, (n - 1) as nat);
        assert(prev == x & (((1u64 << sh) - 1) as u64));
        let p = ((s[n - 1] & 0x7fu8) as u64);
        assert(p == (x >> sh) & 0x7fu64);
        if n < b.len() {
            assert(sh + 7 <= 63);
            assert((x & (((1u64 << sh) - 1) as u64)) | (((x >> sh) & 0x7fu64) << sh) == x & (((1u64
                << ((sh + 7) as u64)) - 1) as u64)) by (bit_vector)
                requires
                    sh + 7 <= 63,
            ;
            assert((7 * n) as u64 == (sh + 7) as u64);
        } else {
            assert((x >> sh) < 128);
            assert((x & (((1u64 << sh) - 1) as u64)) | (((x >> sh) & 0x7fu64) << sh) == x)
                by (bit_vector)
                requires
                    sh <= 63,
                    (x >> sh) < 128,
            ;
        }
    }
}

/// The end index of the canonical encoding is found at its last byte.
proof fn lemma_varuint_end(x: u64, s: Seq<u8>, i: nat)
    requires
        varuint(x).len() <= s.len(),
        s.subrange(0, varuint(x).len() as int) == varuint(x),
        i < varuint(x).len(),
    ensures
        varuint_end(s, i) == Some((varuint(x).len() - 1) as nat),
    decreases varuint(x).len() - i,
{
    lemma_varuint_shape(x);
    let b = varuint(x);
    assert(s.subrange(0, b.len() as int)[i as int] == s[i as int]);
    if i + 1 < b.len() {
        lemma_varuint_end(x, s, i + 1);
    }
}

/// A canonically encoded length is read back exactly, whatever follows it.
pub proof fn lemma_parse_len_roundtrip(n: usize, rest: Seq<u8>)
    ensures
        parse_len(varuint(n as u64) + rest) == Ok::<(usize, nat), DecodeError>(
            (n, varuint(n as u64).len()),
        ),
{
    let x = n as u64;
    let b = varuint(x);
    let s = b + rest;
    lemma_varuint_shape(x);
    assert(s.subrange(0, b.len() as int) =~= b);
    lemma_varuint_end(x, s, 0);
    lemma_varuint_acc_prefix(x, s, b.len());
}

/// Only canonical encodings are read: the bytes a length was read from are the canonical
/// encoding of that length.
pub proof fn lemma_parse_len_canonical(s: Seq<u8>)
    requires
        parse_len(s) is Ok,
    ensures
        s.subrange(0, parse_len(s)->Ok_0.1 as int) == varuint(parse_len(s)->Ok_0.0 as u64),
{
}

} // verus!

verus! {

// ---------------------------------------------------------------------------------------------
// Reading.
// ---------------------------------------------------------------------------------------------

/// A cursor over a byte string being decoded.
pub struct BlobReader<'a> {
    pub bytes: &'a [u8],
    pub pos: usize,
}

/// The outcome of a read against its specification: on success the value and the position
/// after it, otherwise the error.
pub open spec fn read_matches<T>(
    new_pos: usize,
    res: Result<T, DecodeError>,
    spec: Result<(T, nat), DecodeError>,
) -> bool {
    match spec {
        Ok((v, p)) => res == Ok::<T, DecodeError>(v) && new_pos == p,
        Err(e) => res == Err::<T, DecodeError>(e),
    }
}

/// One byte at position `p` of `b`.
pub open spec fn parse_u8(b: Seq<u8>, p: nat) -> Result<(u8, nat), DecodeError> {
    if p + 1 > b.len() {
        Err(DecodeError::UnexpectedEnd)
    } else {
        Ok((b[p as int], p + 1))
    }
}

/// A base-field value at position `p`: four big-endian bytes reduced modulo the prime, as
/// `KoalaBear::from_u32` does.
pub open spec fn parse_val(b: Seq<u8>, p: nat) -> Result<(u32, nat), DecodeError> {
    if p + 4 > b.len() {
        Err(DecodeError::UnexpectedEnd)
    } else {
        Ok(((be32_at(b, p as int) % KOALA_BEAR_PRIME) as u32, p + 4))
    }
}

/// An extension-field element at position `p`: four base-field limbs in order.
pub open spec fn parse_challenge(b: Seq<u8>, p: nat) -> Result<(Challenge, nat), DecodeError> {
    if p + 16 > b.len() {
        Err(DecodeError::UnexpectedEnd)
    } else {
        Ok(
            (
                Challenge {
                    c0: (be32_at(b, p as int) % KOALA_BEAR_PRIME) as u32,
                    c1: (be32_at(b, p + 4int) % KOALA_BEAR_PRIME) as u32,
                    c2: (be32_at(b, p + 8int) % KOALA_BEAR_PRIME) as u32,
                    c3: (be32_at(b, p + 12int) % KOALA_BEAR_PRIME) as u32,
                },
                p + 16,
            ),
        )
    }
}

/// A digest at position `p`: 32 bytes read as four big-endian words.
pub open spec fn parse_digest(b: Seq<u8>, p: nat) -> Result<(Seq<u64>, nat), DecodeError> {
    if p + 32 > b.len() {
        Err(DecodeError::UnexpectedEnd)
    } else {
        Ok((digest_words(b.subrange(p as int, p + 32int)), p + 32))
    }
}

/// A length at position `p` (see `parse_len`).
#[verifier::opaque]
pub open spec fn parse_len_at(b: Seq<u8>, p: nat) -> Result<(usize, nat), DecodeError> {
    if p > b.len() {
        Err(DecodeError::UnexpectedEnd)
    } else {
        match parse_len(b.subrange(p as int, b.len() as int)) {
            Ok((v, k)) => Ok((v, p + k)),
            Err(e) => Err(e),
        }
    }
}

/// Whether two byte strings are equal.
pub fn bytes_equal(a: &[u8], b: &[u8]) -> (r: bool)
    ensures
        r == (a@ == b@),
{
    if a.len() != b.len() {
        return false;
    }
    let mut i: usize = 0;
    while i < a.len()
        invariant
            a@.len() == b@.len(),
            i <= a@.len(),
            forall|k: int| 0 <= k < i ==> a@[k] == b@[k],
        decreases a@.len() - i,
    {
        if a[i] != b[i] {
            return false;
        }
        i = i + 1;
    }
    assert(a@ =~= b@);
    true
}

impl<'a> BlobReader<'a> {
    /// The reader's position lies within its bytes.
    pub open spec fn wf(&self) -> bool {
        self.pos <= self.bytes@.len()
    }

    /// The bytes not yet read.
    pub open spec fn rest(&self) -> Seq<u8> {
        self.bytes@.subrange(self.pos as int, self.bytes@.len() as int)
    }

    /// A reader at the start of `bytes`.
    pub fn new(bytes: &'a [u8]) -> (r: Self)
        ensures
            r.wf(),
            r.bytes@ == bytes@,
            r.pos == 0,
            r.rest() == bytes@,
    {
        let r = BlobReader { bytes, pos: 0 };
        assert(r.rest() =~= bytes@);
        r
    }

    /// Whether every byte has been read.
    pub fn is_eof(&self) -> (r: bool)
        requires
            self.wf(),
        ensures
            r == (self.rest().len() == 0),
    {
        self.pos == self.bytes.len()
    }

    /// Reads the next `n` bytes.
    pub fn read_exact(&mut self, n: usize) -> (res: Result<&'a [u8], DecodeError>)
        requires
            old(self).wf(),
        ensures
            final(self).wf(),
            final(self).bytes@ == old(self).bytes@,
            n <= old(self).rest().len() ==> res is Ok && res->Ok_0@ == old(self).rest().subrange(
                0,
                n as int,
            ) && final(self).pos == old(self).pos + n,
            n > old(self).rest().len() ==> res == Err::<&'a [u8], DecodeError>(
                DecodeError::UnexpectedEnd,
            ),
    {
        if n > self.bytes.len() - self.pos {
            return Err(DecodeError::UnexpectedEnd);
        }
        let out = &self.bytes[self.pos..self.pos + n];
        self.pos = self.pos + n;
        proof {
            assert(out@ =~= old(self).rest().subrange(0, n as int));
        }
        Ok(out)
    }

    /// Reads one byte.
    pub fn read_u8(&mut self) -> (res: Result<u8, DecodeError>)
        requires
            old(self).wf(),
        ensures
            final(self).wf(),
            final(self).bytes@ == old(self).bytes@,
            read_matches(final(self).pos, res, parse_u8(old(self).bytes@, old(self).pos as nat)),
    {
        if self.pos >= self.bytes.len() {
            return Err(DecodeError::UnexpectedEnd);
        }
        let out = self.bytes[self.pos];
        self.pos = self.pos + 1;
        Ok(out)
    }

    /// Reads a base-field value: four big-endian bytes, reduced modulo the prime.
    pub fn read_val(&mut self) -> (res: Result<u32, DecodeError>)
        requires
            old(self).wf(),
        ensures
            final(self).wf(),
            final(self).bytes@ == old(self).bytes@,
            read_matches(final(self).pos, res, parse_val(old(self).bytes@, old(self).pos as nat)),
    {
        let b = self.read_exact(4)?;
        assert(b@[0] == old(self).bytes@[old(self).pos as int]);
        assert(b@[1] == old(self).bytes@[old(self).pos + 1]);
        assert(b@[2] == old(self).bytes@[old(self).pos + 2]);
        assert(b@[3] == old(self).bytes@[old(self).pos + 3]);
        let raw: u32 = ((b[0] as u32) << 24u32) | ((b[1] as u32) << 16u32) | ((b[2] as u32)
            << 8u32) | (b[3] as u32);
        Ok(koala_bear_from_u32(raw))
    }

    /// Reads an extension-field element as four base-field limbs.
    pub fn read_challenge(&mut self) -> (res: Result<Challenge, DecodeError>)
        requires
            old(self).wf(),
        ensures
            final(self).wf(),
            final(self).bytes@ == old(self).bytes@,
            read_matches(final(self).pos, res, parse_challenge(old(self).bytes@, old(self).pos as nat)),
    {
        let c0 = self.read_val()?;
        let c1 = self.read_val()?;
        let c2 = self.read_val()?;
        let c3 = self.read_val()?;
        Ok(Challenge { c0, c1, c2, c3 })
    }

    /// Reads a digest in its bytes32 form.
    pub fn read_digest(&mut self) -> (res: Result<[u64; 4], DecodeError>)
        requires
            old(self).wf(),
        ensures
            final(self).wf(),
            final(self).bytes@ == old(self).bytes@,
            match parse_digest(old(self).bytes@, old(self).pos as nat) {
                Ok((v, p)) => res is Ok && res->Ok_0@ == v && final(self).pos == p,
                Err(e) => res == Err::<[u64; 4], DecodeError>(e),
            },
    {
        let b = self.read_exact(32)?;
        let mut arr = [0u8; 32];
        let mut i: usize = 0;
        while i < 32
            invariant
                b@.len() == 32,
                i <= 32,
                forall|k: int| 0 <= k < i ==> arr@[k] == b@[k],
            decreases 32 - i,
        {
            arr[i] = b[i];
            i = i + 1;
        }
        assert(arr@ =~= old(self).bytes@.subrange(old(self).pos as int, old(self).pos + 32));
        Ok(digest_bytes32_to_u64(&arr))
    }

    /// Reads a length: the canonical unsigned LEB128 encoding of a `usize`.
    pub fn read_len(&mut self) -> (res: Result<usize, DecodeError>)
        requires
            old(self).wf(),
        ensures
            final(self).wf(),
            final(self).bytes@ == old(self).bytes@,
            read_matches(final(self).pos, res, parse_len_at(old(self).bytes@, old(self).pos as nat)),
    {
        proof {
            reveal(parse_len_at);
        }
        let ghost s = old(self).rest();
        let start = self.pos;
        let mut result: u64 = 0;
        let mut shift: u64 = 0;
        let mut n: usize = 0;
        loop
            invariant_except_break
                s == old(self).rest(),
                old(self).wf(),
                self.wf(),
                self.bytes@ == old(self).bytes@,
                start == old(self).pos,
                n <= 9,
                shift == 7 * n,
                self.pos == start + n,
                n <= s.len(),
                self.rest() == s.subrange(n as int, s.len() as int),
                result == varuint_acc(s, n as nat),
                varuint_end(s, 0) == varuint_end(s, n as nat),
            ensures
                s == old(self).rest(),
                self.wf(),
                self.bytes@ == old(self).bytes@,
                start == old(self).pos,
                n <= 9,
                self.pos == start + n + 1,
                n < s.len(),
                varuint_end(s, 0) == Some(n as nat),
                result == varuint_acc(s, (n + 1) as nat),
            decreases 10 - n,
        {
            proof {
                reveal(parse_len_at);
            }
            if shift >= 64 {
                return Err(DecodeError::VaruintOverflow);
            }
            let byte = match self.read_u8() {
                Ok(b) => b,
                Err(e) => {
                    assert(s.len() == n);
                    return Err(e);
                },
            };
            assert(byte == s[n as int]);
            assert(self.pos == start + n + 1);
            let payload = (byte & 0x7fu8) as u64;
            result = result | (payload << shift);
            if byte & 0x80u8 == 0 {
                break ;
            }
            shift = shift + 7;
            n = n + 1;
            assert(self.bytes@.len() == s.len() + start);
            assert forall|k: int| 0 <= k < self.rest().len() implies self.rest()[k] == s.subrange(
                n as int,
                s.len() as int,
            )[k] by {
                assert(self.rest()[k] == self.bytes@[self.pos + k]);
                assert(s[n + k] == old(self).bytes@[start + n + k]);
            }
            assert(self.rest() =~= s.subrange(n as int, s.len() as int));
            if n == 10 {
                assert(varuint_end(s, 10) == None::<nat>);
                return Err(DecodeError::VaruintOverflow);
            }
        }
        if result > usize::MAX as u64 {
            return Err(DecodeError::LengthTooLarge);
        }
        let value = result as usize;
        let mut canonical: Vec<u8> = Vec::new();
        encode_varuint(value, &mut canonical);
        let consumed = &self.bytes[start..self.pos];
        assert(consumed@ =~= s.subrange(0, (n + 1) as int));
        assert(canonical@ =~= varuint(result));
        if !bytes_equal(consumed, canonical.as_slice()) {
            return Err(DecodeError::NonCanonicalVaruint);
        }
        Ok(value)
    }
}

} // verus!

verus! {

// ---------------------------------------------------------------------------------------------
// Writing.
// ---------------------------------------------------------------------------------------------

/// The kinds of fields whose first position in a proof blob is recorded.
pub enum Mark {
    Plain,
    Commitment,
    OodAnswer,
    SumcheckCoeff,
    MerkleSibling,
    FinalPoly,
}

/// One field of a blob: its bytes and the kind of position it marks.
pub ghost struct Tok {
    pub mark: Mark,
    pub bytes: Seq<u8>,
}

/// A blob of a single field.
pub open spec fn tok(mark: Mark, bytes: Seq<u8>) -> Seq<Tok> {
    seq![Tok { mark, bytes }]
}

/// An unmarked field.
pub open spec fn plain(bytes: Seq<u8>) -> Seq<Tok> {
    tok(Mark::Plain, bytes)
}

/// The bytes of a sequence of fields, in order.
#[verifier::opaque]
pub open spec fn flat(ts: Seq<Tok>) -> Seq<u8>
    decreases ts.len(),
{
    if ts.len() == 0 {
        seq![]
    } else {
        flat(ts.drop_last()) + ts.last().bytes
    }
}

/// Byte offsets of the first occurrence of representative fields of a proof blob.
#[derive(Debug, Clone)]
pub struct ProofBlobOffsets {
    pub commitment_offset: Option<usize>,
    pub first_initial_ood_answer_offset: Option<usize>,
    pub first_sumcheck_coeff_offset: Option<usize>,
    pub first_merkle_sibling_offset: Option<usize>,
    pub first_final_poly_offset: Option<usize>,
}

impl ProofBlobOffsets {
    /// No offset recorded yet.
    pub open spec fn none() -> ProofBlobOffsets {
        ProofBlobOffsets {
            commitment_offset: None,
            first_initial_ood_answer_offset: None,
            first_sumcheck_coeff_offset: None,
            first_merkle_sibling_offset: None,
            first_final_poly_offset: None,
        }
    }
}

impl Default for ProofBlobOffsets {
    fn default() -> (r: Self)
        ensures
            r == ProofBlobOffsets::none(),
    {
        ProofBlobOffsets {
            commitment_offset: None,
            first_initial_ood_answer_offset: None,
            first_sumcheck_coeff_offset: None,
            first_merkle_sibling_offset: None,
            first_final_poly_offset: None,
        }
    }
}

/// Records `pos` unless a position is already recorded.
pub open spec fn mark_slot(slot: Option<usize>, pos: nat) -> Option<usize> {
    if slot is Some {
        slot
    } else {
        Some(pos as usize)
    }
}

/// The offsets after a field of the given kind is written at `pos`.
pub open spec fn apply_tok(o: ProofBlobOffsets, pos: nat, t: Tok) -> ProofBlobOffsets {
    match t.mark {
        Mark::Plain => o,
        Mark::Commitment => ProofBlobOffsets {
            commitment_offset: mark_slot(o.commitment_offset, pos),
            ..o
        },
        Mark::OodAnswer => ProofBlobOffsets {
            first_initial_ood_answer_offset: mark_slot(o.first_initial_ood_answer_offset, pos),
            ..o
        },
        Mark::SumcheckCoeff => ProofBlobOffsets {
            first_sumcheck_coeff_offset: mark_slot(o.first_sumcheck_coeff_offset, pos),
            ..o
        },
        Mark::MerkleSibling => ProofBlobOffsets {
            first_merkle_sibling_offset: mark_slot(o.first_merkle_sibling_offset, pos),
            ..o
        },
        Mark::FinalPoly => ProofBlobOffsets {
            first_final_poly_offset: mark_slot(o.first_final_poly_offset, pos),
            ..o
        },
    }
}

/// The offsets after the fields `ts` are written starting at byte `base`: for every kind, the
/// first recorded position stays, else the position of the first field of that kind.
pub open spec fn offsets_after(o: ProofBlobOffsets, base: nat, ts: Seq<Tok>) -> ProofBlobOffsets
    decreases ts.len(),
{
    if ts.len() == 0 {
        o
    } else {
        apply_tok(
            offsets_after(o, base, ts.drop_last()),
            base + flat(ts.drop_last()).len(),
            ts.last(),
        )
    }
}

pub broadcast proof fn lemma_flat_append(a: Seq<Tok>, b: Seq<Tok>)
    ensures
        #[trigger] flat(a + b) == flat(a) + flat(b),
    decreases b.len(),
{
    reveal(flat);
    if b.len() == 0 {
        assert(a + b =~= a);
        assert(flat(b) =~= seq![]);
        assert(flat(a) + flat(b) =~= flat(a));
    } else {
        assert((a + b).drop_last() =~= a + b.drop_last());
        lemma_flat_append(a, b.drop_last());
        assert(flat(a + b) =~= flat(a) + flat(b));
    }
}

pub broadcast proof fn lemma_offsets_after_append(
    o: ProofBlobOffsets,
    base: nat,
    a: Seq<Tok>,
    b: Seq<Tok>,
)
    ensures
        #[trigger] offsets_after(o, base, a + b) == offsets_after(
            offsets_after(o, base, a),
            base + flat(a).len(),
            b,
        ),
    decreases b.len(),
{
    reveal(flat);
    if b.len() == 0 {
        assert(a + b =~= a);
    } else {
        assert((a + b).drop_last() =~= a + b.drop_last());
        lemma_offsets_after_append(o, base, a, b.drop_last());
        lemma_flat_append(a, b.drop_last());
    }
}

pub proof fn lemma_flat_empty()
    ensures
        flat(Seq::<Tok>::empty()) == Seq::<u8>::empty(),
{
    reveal(flat);
}

pub proof fn lemma_single_tok(o: ProofBlobOffsets, base: nat, t: Tok)
    ensures
        flat(seq![t]) == t.bytes,
        offsets_after(o, base, seq![t]) == apply_tok(o, base, t),
{
    reveal(flat);
    assert(seq![t].drop_last() =~= Seq::<Tok>::empty());
    assert(flat(seq![t].drop_last()).len() == 0);
    assert(offsets_after(o, base, seq![t].drop_last()) == o);
    assert(seq![t].last() == t);
    assert(flat(seq![t]) =~= t.bytes);
}

/// The bytes of an extension-field element: its four limbs, each big-endian.
pub open spec fn challenge_bytes(c: Challenge) -> Seq<u8> {
    be32(c.c0) + be32(c.c1) + be32(c.c2) + be32(c.c3)
}

/// A growing proof blob.
pub struct BlobWriter {
    pub bytes: Vec<u8>,
}

impl View for BlobWriter {
    type V = Seq<u8>;

    open spec fn view(&self) -> Seq<u8> {
        self.bytes@
    }
}

impl BlobWriter {
    /// An empty blob.
    pub fn new() -> (w: Self)
        ensures
            w@ == Seq::<u8>::empty(),
    {
        BlobWriter { bytes: Vec::new() }
    }

    /// The number of bytes written so far.
    pub fn pos(&self) -> (p: usize)
        ensures
            p == self@.len(),
    {
        self.bytes.len()
    }

    /// The bytes written.
    pub fn finish(self) -> (out: Vec<u8>)
        ensures
            out@ == self@,
    {
        self.bytes
    }

    pub fn write_u8(&mut self, v: u8)
        ensures
            final(self)@ == old(self)@ + seq![v],
    {
        self.bytes.push(v);
    }

    pub fn write_bytes(&mut self, bytes: &[u8])
        ensures
            final(self)@ == old(self)@ + bytes@,
    {
        let mut i: usize = 0;
        while i < bytes.len()
            invariant
                i <= bytes@.len(),
                self@ == old(self)@ + bytes@.subrange(0, i as int),
            decreases bytes@.len() - i,
        {
            self.bytes.push(bytes[i]);
            i = i + 1;
            assert(self@ =~= old(self)@ + bytes@.subrange(0, i as int));
        }
        assert(bytes@.subrange(0, bytes@.len() as int) =~= bytes@);
    }

    /// Writes a length as a canonical varuint.
    pub fn write_len(&mut self, value: usize)
        ensures
            final(self)@ == old(self)@ + varuint(value as u64),
    {
        encode_varuint(value, &mut self.bytes);
    }

    /// Writes a canonical base-field value as four big-endian bytes.
    pub fn write_val(&mut self, value: u32)
        ensures
            final(self)@ == old(self)@ + be32(value),
    {
        self.bytes.push((value >> 24u32) as u8);
        self.bytes.push((value >> 16u32) as u8);
        self.bytes.push((value >> 8u32) as u8);
        self.bytes.push(value as u8);
        assert(self@ =~= old(self)@ + be32(value));
    }

    /// Writes an extension-field element as its four limbs.
    pub fn write_challenge(&mut self, value: Challenge)
        ensures
            final(self)@ == old(self)@ + challenge_bytes(value),
    {
        self.write_val(value.c0);
        self.write_val(value.c1);
        self.write_val(value.c2);
        self.write_val(value.c3);
        assert(self@ =~= old(self)@ + challenge_bytes(value));
    }

    /// Writes an extension-field element, recording its position if none is recorded yet.
    pub fn write_challenge_marked(&mut self, value: Challenge, offset: &mut Option<usize>)
        ensures
            final(self)@ == old(self)@ + challenge_bytes(value),
            *final(offset) == mark_slot(*old(offset), old(self)@.len()),
    {
        if offset.is_none() {
            *offset = Some(self.pos());
        }
        self.write_challenge(value);
    }

    /// Writes a digest in its bytes32 form.
    pub fn write_digest(&mut self, digest: &[u64; 4])
        ensures
            final(self)@ == old(self)@ + digest_bytes(digest@),
    {
        let bytes32 = crate::keccak::digest_u64_to_bytes32(digest);
        self.write_bytes(bytes32.as_slice());
    }

    /// Writes the presence tag of an optional section (`0` absent, `1` present) and says whether
    /// the section follows.
    pub fn write_option<T>(&mut self, value: &Option<T>) -> (present: bool)
        ensures
            present == value is Some,
            final(self)@ == old(self)@ + seq![if present { 1u8 } else { 0u8 }],
    {
        match value {
            None => {
                self.write_u8(0);
                false
            },
            Some(_) => {
                self.write_u8(1);
                true
            },
        }
    }
}

} // verus!

verus! {

/// Writing the fields `ts` took the blob from `w0` to `w1` and the recorded offsets from `o0`
/// to `o1`.
pub open spec fn emits(
    w0: Seq<u8>,
    w1: Seq<u8>,
    o0: ProofBlobOffsets,
    o1: ProofBlobOffsets,
    ts: Seq<Tok>,
) -> bool {
    w1 == w0 + flat(ts) && o1 == offsets_after(o0, w0.len(), ts)
}

pub proof fn lemma_emits_seq(
    w0: Seq<u8>,
    w1: Seq<u8>,
    w2: Seq<u8>,
    o0: ProofBlobOffsets,
    o1: ProofBlobOffsets,
    o2: ProofBlobOffsets,
    a: Seq<Tok>,
    b: Seq<Tok>,
)
    requires
        emits(w0, w1, o0, o1, a),
        emits(w1, w2, o1, o2, b),
    ensures
        emits(w0, w2, o0, o2, a + b),
{
    lemma_flat_append(a, b);
    lemma_offsets_after_append(o0, w0.len(), a, b);
    assert(w2 =~= w0 + flat(a + b));
}

pub proof fn lemma_emits_empty(w: Seq<u8>, o: ProofBlobOffsets)
    ensures
        emits(w, w, o, o, Seq::<Tok>::empty()),
{
    reveal(flat);
    assert(flat(Seq::<Tok>::empty()) =~= Seq::<u8>::empty());
    assert(w =~= w + flat(Seq::<Tok>::empty()));
}

pub proof fn lemma_emits_tok(w0: Seq<u8>, w1: Seq<u8>, o0: ProofBlobOffsets, m: Mark, b: Seq<u8>)
    requires
        w1 == w0 + b,
    ensures
        emits(w0, w1, o0, apply_tok(o0, w0.len(), Tok { mark: m, bytes: b }), tok(m, b)),
{
    lemma_single_tok(o0, w0.len(), Tok { mark: m, bytes: b });
}

pub proof fn lemma_emits_plain(w0: Seq<u8>, w1: Seq<u8>, o0: ProofBlobOffsets, b: Seq<u8>)
    requires
        w1 == w0 + b,
    ensures
        emits(w0, w1, o0, o0, plain(b)),
{
    lemma_emits_tok(w0, w1, o0, Mark::Plain, b);
}

} // verus!
