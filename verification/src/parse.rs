//! What reading a proof blob yields, position by position.
use crate::blob::{parse_challenge, parse_digest, parse_len_at, parse_u8, parse_val, DecodeError};
use crate::field::Challenge;
use crate::format::blob_magic;
use crate::model::{
    is_pow2, Fraction, SpecAir, SpecBatchSumcheck, SpecBlob, SpecFractionalSum, SpecPiop,
    SpecProof, SpecQuery, SpecRound, SpecSkip, SpecSumcheck, SpecWhir,
};
use vstd::prelude::*;

verus! {

/// A reader of one item: from a position in a byte string to the item and the position after
/// it, or an error.
pub type Parser<T> = spec_fn(Seq<u8>, nat) -> Result<(T, nat), DecodeError>;

/// `n` items read one after another from position `p`.
pub open spec fn parse_rep<T>(b: Seq<u8>, p: nat, n: nat, f: Parser<T>) -> Result<
    (Seq<T>, nat),
    DecodeError,
>
    decreases n,
{
    if n == 0 {
        Ok((seq![], p))
    } else {
        match parse_rep(b, p, (n - 1) as nat, f) {
            Err(e) => Err(e),
            Ok((vs, q)) => match f(b, q) {
                Err(e) => Err(e),
                Ok((v, r)) => Ok((vs.push(v), r)),
            },
        }
    }
}

/// A length-prefixed list of items at position `p`.
pub open spec fn parse_vec<T>(b: Seq<u8>, p: nat, f: Parser<T>) -> Result<(Seq<T>, nat), DecodeError> {
    match parse_len_at(b, p) {
        Err(e) => Err(e),
        Ok((n, q)) => parse_rep(b, q, n as nat, f),
    }
}

/// An optional section at position `p`: tag `0` (absent) or `1` followed by the section.
pub open spec fn parse_option<T>(b: Seq<u8>, p: nat, f: Parser<T>) -> Result<
    (Option<T>, nat),
    DecodeError,
> {
    match parse_u8(b, p) {
        Err(e) => Err(e),
        Ok((tag, q)) => if tag == 0 {
            Ok((None, q))
        } else if tag == 1 {
            match f(b, q) {
                Err(e) => Err(e),
                Ok((v, r)) => Ok((Some(v), r)),
            }
        } else {
            Err(DecodeError::UnknownOptionTag)
        },
    }
}

pub open spec fn p_val() -> Parser<u32> {
    |b: Seq<u8>, p: nat| parse_val(b, p)
}

pub open spec fn p_len() -> Parser<usize> {
    |b: Seq<u8>, p: nat| parse_len_at(b, p)
}

pub open spec fn p_chal() -> Parser<Challenge> {
    |b: Seq<u8>, p: nat| parse_challenge(b, p)
}

pub open spec fn p_digest() -> Parser<Seq<u64>> {
    |b: Seq<u8>, p: nat| parse_digest(b, p)
}

pub open spec fn p_poly() -> Parser<Seq<Challenge>> {
    |b: Seq<u8>, p: nat| parse_vec(b, p, p_chal())
}

pub open spec fn p_vals() -> Parser<Seq<u32>> {
    |b: Seq<u8>, p: nat| parse_vec(b, p, p_val())
}

pub open spec fn parse_fraction(b: Seq<u8>, p: nat) -> Result<(Fraction, nat), DecodeError> {
    match parse_challenge(b, p) {
        Err(e) => Err(e),
        Ok((numer, q)) => match parse_challenge(b, q) {
            Err(e) => Err(e),
            Ok((denom, r)) => Ok((Fraction { numer, denom }, r)),
        },
    }
}

pub open spec fn p_fraction() -> Parser<Fraction> {
    |b: Seq<u8>, p: nat| parse_fraction(b, p)
}

pub open spec fn p_fractions() -> Parser<Seq<Fraction>> {
    |b: Seq<u8>, p: nat| parse_vec(b, p, p_fraction())
}

pub open spec fn parse_batch(b: Seq<u8>, p: nat) -> Result<(SpecBatchSumcheck, nat), DecodeError> {
    match parse_vec(b, p, p_poly()) {
        Err(e) => Err(e),
        Ok((compressed_round_polys, q)) => match parse_vec(b, q, p_poly()) {
            Err(e) => Err(e),
            Ok((evals, r)) => Ok((SpecBatchSumcheck { compressed_round_polys, evals }, r)),
        },
    }
}

pub open spec fn p_batch() -> Parser<SpecBatchSumcheck> {
    |b: Seq<u8>, p: nat| parse_batch(b, p)
}

#[verifier::opaque]
pub open spec fn parse_fractional_sum(b: Seq<u8>, p: nat) -> Result<
    (SpecFractionalSum, nat),
    DecodeError,
> {
    match parse_vec(b, p, p_fractions()) {
        Err(e) => Err(e),
        Ok((sums, q)) => match parse_vec(b, q, p_batch()) {
            Err(e) => Err(e),
            Ok((layers, r)) => Ok((SpecFractionalSum { sums, layers }, r)),
        },
    }
}

pub open spec fn parse_skip(b: Seq<u8>, p: nat) -> Result<(SpecSkip, nat), DecodeError> {
    match parse_len_at(b, p) {
        Err(e) => Err(e),
        Ok((skip_rounds, q)) => match parse_vec(b, q, p_chal()) {
            Err(e) => Err(e),
            Ok((zero_check_round_poly, r)) => match parse_vec(b, r, p_chal()) {
                Err(e) => Err(e),
                Ok((eval_check_round_poly, t)) => Ok(
                    (SpecSkip { skip_rounds, zero_check_round_poly, eval_check_round_poly }, t),
                ),
            },
        },
    }
}

pub open spec fn p_skip() -> Parser<SpecSkip> {
    |b: Seq<u8>, p: nat| parse_skip(b, p)
}

#[verifier::opaque]
pub open spec fn parse_air(b: Seq<u8>, p: nat) -> Result<(SpecAir, nat), DecodeError> {
    match parse_vec(b, p, p_skip()) {
        Err(e) => Err(e),
        Ok((univariate_skips, q)) => match parse_batch(b, q) {
            Err(e) => Err(e),
            Ok((regular, r)) => match parse_batch(b, r) {
                Err(e) => Err(e),
                Ok((univariate_eval_check, t)) => Ok(
                    (SpecAir { univariate_skips, regular, univariate_eval_check }, t),
                ),
            },
        },
    }
}

pub open spec fn parse_piop(b: Seq<u8>, p: nat) -> Result<(SpecPiop, nat), DecodeError> {
    match parse_fractional_sum(b, p) {
        Err(e) => Err(e),
        Ok((fractional_sum, q)) => match parse_air(b, q) {
            Err(e) => Err(e),
            Ok((air, r)) => Ok((SpecPiop { fractional_sum, air }, r)),
        },
    }
}

pub open spec fn parse_pair(b: Seq<u8>, p: nat) -> Result<((Challenge, Challenge), nat), DecodeError> {
    match parse_challenge(b, p) {
        Err(e) => Err(e),
        Ok((c0, q)) => match parse_challenge(b, q) {
            Err(e) => Err(e),
            Ok((c2, r)) => Ok(((c0, c2), r)),
        },
    }
}

pub open spec fn p_pair() -> Parser<(Challenge, Challenge)> {
    |b: Seq<u8>, p: nat| parse_pair(b, p)
}

pub open spec fn parse_sumcheck(b: Seq<u8>, p: nat) -> Result<(SpecSumcheck, nat), DecodeError> {
    match parse_vec(b, p, p_pair()) {
        Err(e) => Err(e),
        Ok((polynomial_evaluations, q)) => match parse_vec(b, q, p_val()) {
            Err(e) => Err(e),
            Ok((pow_witnesses, r)) => Ok((SpecSumcheck { polynomial_evaluations, pow_witnesses }, r)),
        },
    }
}

pub open spec fn p_sumcheck() -> Parser<SpecSumcheck> {
    |b: Seq<u8>, p: nat| parse_sumcheck(b, p)
}

pub open spec fn parse_query(b: Seq<u8>, p: nat) -> Result<(SpecQuery, nat), DecodeError> {
    match parse_u8(b, p) {
        Err(e) => Err(e),
        Ok((tag, q)) => if tag == 0 {
            match parse_vec(b, q, p_val()) {
                Err(e) => Err(e),
                Ok((values, r)) => match parse_vec(b, r, p_digest()) {
                    Err(e) => Err(e),
                    Ok((proof, t)) => Ok((SpecQuery::Base { values, proof }, t)),
                },
            }
        } else if tag == 1 {
            match parse_vec(b, q, p_chal()) {
                Err(e) => Err(e),
                Ok((values, r)) => match parse_vec(b, r, p_digest()) {
                    Err(e) => Err(e),
                    Ok((proof, t)) => Ok((SpecQuery::Extension { values, proof }, t)),
                },
            }
        } else {
            Err(DecodeError::UnknownQueryTag)
        },
    }
}

pub open spec fn p_query() -> Parser<SpecQuery> {
    |b: Seq<u8>, p: nat| parse_query(b, p)
}

#[verifier::opaque]
pub open spec fn parse_round(b: Seq<u8>, p: nat) -> Result<(SpecRound, nat), DecodeError> {
    match parse_digest(b, p) {
        Err(e) => Err(e),
        Ok((commitment, p1)) => match parse_vec(b, p1, p_chal()) {
            Err(e) => Err(e),
            Ok((ood_answers, p2)) => match parse_val(b, p2) {
                Err(e) => Err(e),
                Ok((pow_witness, p3)) => match parse_vec(b, p3, p_query()) {
                    Err(e) => Err(e),
                    Ok((queries, p4)) => match parse_sumcheck(b, p4) {
                        Err(e) => Err(e),
                        Ok((sumcheck, p5)) => Ok(
                            (SpecRound { commitment, ood_answers, pow_witness, queries, sumcheck }, p5),
                        ),
                    },
                },
            },
        },
    }
}

pub open spec fn p_round() -> Parser<SpecRound> {
    |b: Seq<u8>, p: nat| parse_round(b, p)
}

/// The final polynomial: a power-of-two number of evaluations.
pub open spec fn parse_final_poly(b: Seq<u8>, p: nat) -> Result<(Seq<Challenge>, nat), DecodeError> {
    match parse_len_at(b, p) {
        Err(e) => Err(e),
        Ok((n, q)) => if !is_pow2(n as nat) {
            Err(DecodeError::FinalPolyNotPowerOfTwo)
        } else {
            parse_rep(b, q, n as nat, p_chal())
        },
    }
}

pub open spec fn p_final_poly() -> Parser<Seq<Challenge>> {
    |b: Seq<u8>, p: nat| parse_final_poly(b, p)
}

/// The first part of a WHIR proof: commitment, OOD answers, initial sumcheck and rounds.
#[verifier::opaque]
pub open spec fn parse_whir_head(b: Seq<u8>, p: nat) -> Result<
    ((Seq<u64>, Seq<Challenge>, SpecSumcheck, Seq<SpecRound>), nat),
    DecodeError,
> {
    match parse_digest(b, p) {
        Err(e) => Err(e),
        Ok((initial_commitment, p1)) => match parse_vec(b, p1, p_chal()) {
            Err(e) => Err(e),
            Ok((initial_ood_answers, p2)) => match parse_sumcheck(b, p2) {
                Err(e) => Err(e),
                Ok((initial_sumcheck, p3)) => match parse_vec(b, p3, p_round()) {
                    Err(e) => Err(e),
                    Ok((rounds, p4)) => Ok(
                        ((initial_commitment, initial_ood_answers, initial_sumcheck, rounds), p4),
                    ),
                },
            },
        },
    }
}

/// The second part of a WHIR proof: final polynomial, PoW witness, final queries and final
/// sumcheck.
#[verifier::opaque]
pub open spec fn parse_whir_tail(b: Seq<u8>, p: nat) -> Result<
    ((Option<Seq<Challenge>>, u32, Seq<SpecQuery>, Option<SpecSumcheck>), nat),
    DecodeError,
> {
    match parse_option(b, p, p_final_poly()) {
        Err(e) => Err(e),
        Ok((final_poly, p5)) => match parse_val(b, p5) {
            Err(e) => Err(e),
            Ok((final_pow_witness, p6)) => match parse_vec(b, p6, p_query()) {
                Err(e) => Err(e),
                Ok((final_queries, p7)) => match parse_option(b, p7, p_sumcheck()) {
                    Err(e) => Err(e),
                    Ok((final_sumcheck, p8)) => Ok(
                        ((final_poly, final_pow_witness, final_queries, final_sumcheck), p8),
                    ),
                },
            },
        },
    }
}

pub open spec fn parse_whir(b: Seq<u8>, p: nat) -> Result<(SpecWhir, nat), DecodeError> {
    match parse_whir_head(b, p) {
        Err(e) => Err(e),
        Ok(((initial_commitment, initial_ood_answers, initial_sumcheck, rounds), p4)) => match parse_whir_tail(b, p4) {
            Err(e) => Err(e),
            Ok(((final_poly, final_pow_witness, final_queries, final_sumcheck), p8)) => Ok(
                (
                    SpecWhir {
                        initial_commitment,
                        initial_ood_answers,
                        initial_sumcheck,
                        rounds,
                        final_poly,
                        final_pow_witness,
                        final_queries,
                        final_sumcheck,
                    },
                    p8,
                ),
            ),
        },
    }
}

pub open spec fn p_whir() -> Parser<SpecWhir> {
    |b: Seq<u8>, p: nat| parse_whir(b, p)
}

/// The proof blob: its decoded public inputs and proof, or why it is rejected.
pub open spec fn parse_blob(b: Seq<u8>) -> Result<SpecBlob, DecodeError> {
    if b.len() < 4 {
        Err(DecodeError::UnexpectedEnd)
    } else if b.subrange(0, 4) != blob_magic() {
        Err(DecodeError::InvalidMagic)
    } else {
        match parse_u8(b, 4) {
            Err(e) => Err(e),
            Ok((version, p1)) => if version != 1 {
                Err(DecodeError::UnsupportedVersion)
            } else {
                match parse_vec(b, p1, p_vals()) {
                    Err(e) => Err(e),
                    Ok((public_inputs, p2)) => match parse_vec(b, p2, p_len()) {
                        Err(e) => Err(e),
                        Ok((log_bs, p3)) => match parse_digest(b, p3) {
                            Err(e) => Err(e),
                            Ok((commitment, p4)) => match parse_piop(b, p4) {
                                Err(e) => Err(e),
                                Ok((piop, p5)) => match parse_vec(b, p5, p_whir()) {
                                    Err(e) => Err(e),
                                    Ok((pcs, p6)) => if p6 != b.len() {
                                        Err(DecodeError::TrailingBytes)
                                    } else {
                                        Ok(
                                            SpecBlob {
                                                public_inputs,
                                                proof: SpecProof { log_bs, commitment, piop, pcs },
                                            },
                                        )
                                    },
                                },
                            },
                        },
                    },
                }
            },
        }
    }
}

/// An error in the first `i` items of a repetition is the error of the whole repetition.
pub proof fn lemma_rep_err<T>(b: Seq<u8>, p: nat, i: nat, n: nat, f: Parser<T>)
    requires
        i <= n,
        parse_rep(b, p, i, f) is Err,
    ensures
        parse_rep(b, p, n, f) == parse_rep(b, p, i, f),
    decreases n - i,
{
    if i < n {
        lemma_rep_err(b, p, i, (n - 1) as nat, f);
    }
}

} // verus!
