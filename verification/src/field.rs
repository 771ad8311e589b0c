//! KoalaBear base-field values and elements of its degree-4 extension, held as canonical
//! `u32` limbs.
use p3_field::{PrimeCharacteristicRing, PrimeField32};
use p3_koala_bear::KoalaBear;
use vstd::prelude::*;

verus! {

/// The KoalaBear prime `2^31 - 2^24 + 1`, the base field of every proof value.
pub const KOALA_BEAR_PRIME: u32 = 0x7f00_0001;

/// A base-field value held as its canonical representative in `[0, p)`.
pub open spec fn is_canonical_val(x: u32) -> bool {
    x < KOALA_BEAR_PRIME
}

/// Calls `KoalaBear::from_u32` (p3-field / p3-koala-bear) and reads the element back with
/// `as_canonical_u32`. The sources reduce any `u32` modulo the prime (`to_monty` computes
/// `(x << 32) % P`) and return the canonical representative in `[0, P)`; the contract says the
/// result is `x mod P`.
#[verifier::external_body]
pub(crate) fn koala_bear_from_u32(x: u32) -> (r: u32)
    ensures
        r == x % KOALA_BEAR_PRIME,
{
    KoalaBear::from_u32(x).as_canonical_u32()
}

/// An element of the degree-4 binomial extension of KoalaBear, held as its four canonical
/// basis coefficients (limbs), lowest degree first.
#[derive(Clone, Copy, Debug, PartialEq, Eq, Structural)]
pub struct Challenge {
    pub c0: u32,
    pub c1: u32,
    pub c2: u32,
    pub c3: u32,
}

impl Challenge {
    /// All four limbs are canonical base-field values.
    pub open spec fn is_canonical(self) -> bool {
        is_canonical_val(self.c0) && is_canonical_val(self.c1) && is_canonical_val(self.c2)
            && is_canonical_val(self.c3)
    }
}

/// The element with limbs `l0..l3`, each reduced modulo the prime.
pub open spec fn ext_reduced(l0: int, l1: int, l2: int, l3: int) -> Challenge {
    let p = KOALA_BEAR_PRIME as int;
    Challenge { c0: (l0 % p) as u32, c1: (l1 % p) as u32, c2: (l2 % p) as u32, c3: (l3 % p) as u32 }
}

/// Addition in the extension: limb by limb, modulo the prime.
pub open spec fn ext_add(a: Challenge, b: Challenge) -> Challenge {
    ext_reduced(a.c0 + b.c0, a.c1 + b.c1, a.c2 + b.c2, a.c3 + b.c3)
}

/// Multiplication in the extension `KoalaBear[X] / (X^4 - 3)`: the product of the two
/// polynomials with `X^4` replaced by `3`, limbs modulo the prime.
pub open spec fn ext_mul(a: Challenge, b: Challenge) -> Challenge {
    let (a0, a1, a2, a3) = (a.c0 as int, a.c1 as int, a.c2 as int, a.c3 as int);
    let (b0, b1, b2, b3) = (b.c0 as int, b.c1 as int, b.c2 as int, b.c3 as int);
    ext_reduced(
        a0 * b0 + 3 * (a1 * b3 + a2 * b2 + a3 * b1),
        a0 * b1 + a1 * b0 + 3 * (a2 * b3 + a3 * b2),
        a0 * b2 + a1 * b1 + a2 * b0 + 3 * (a3 * b3),
        a0 * b3 + a1 * b2 + a2 * b1 + a3 * b0,
    )
}

/// The extension element `0`.
pub open spec fn ext_zero() -> Challenge {
    Challenge { c0: 0, c1: 0, c2: 0, c3: 0 }
}

} // verus!
