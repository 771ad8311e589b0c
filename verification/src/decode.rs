//! Reading a proof blob back.
use crate::blob::{BlobReader, DecodeError};
use crate::field::Challenge;
use crate::model::{
    digests_view, is_pow2, pair_view, polys_view, queries_view, vals_view, AirProof,
    AirUnivariateSkipProof, BatchSumcheckProof, DecodedProofBlob, Fraction, FractionalSumProof,
    HyperPlonkProof, PiopProof, QueryOpening, SumcheckData, WhirProof, WhirRoundProof,
};
use crate::parse::{
    lemma_rep_err, p_batch, p_chal, p_digest, p_fraction, p_fractions, p_len, p_pair, p_poly,
    p_query, p_round, p_skip, p_val, p_vals, p_whir, parse_air, parse_batch, parse_blob,
    parse_final_poly, parse_fraction, parse_pair, parse_fractional_sum, parse_option, parse_piop,
    parse_query, parse_rep, parse_round, parse_skip, parse_sumcheck, parse_vec, parse_whir,
    parse_whir_head, parse_whir_tail, p_final_poly, p_sumcheck,
};
use vstd::prelude::*;

verus! {

/// A read that ended at `new_pos` with `res` agrees with the specification `spec` through the
/// view `view`.
pub open spec fn decoded<T, V>(
    new_pos: usize,
    res: Result<T, DecodeError>,
    view: spec_fn(T) -> V,
    spec: Result<(V, nat), DecodeError>,
) -> bool {
    match spec {
        Ok((v, p)) => res is Ok && view(res->Ok_0) == v && new_pos == p,
        Err(e) => res is Err && res->Err_0 == e,
    }
}

/// The reader reads the same bytes and stays within them.
pub open spec fn same_input(r0: BlobReader, r1: BlobReader) -> bool {
    r1.wf() && r1.bytes@ == r0.bytes@
}

/// Whether `n` is a power of two.
pub fn is_power_of_two(n: usize) -> (r: bool)
    ensures
        r == is_pow2(n as nat),
{
    let mut m = n;
    while m > 1
        invariant
            is_pow2(n as nat) == is_pow2(m as nat),
        decreases m,
    {
        if m % 2 == 1 {
            return false;
        }
        m = m / 2;
    }
    m == 1
}

fn decode_vals(reader: &mut BlobReader) -> (res: Result<Vec<u32>, DecodeError>)
    requires
        old(reader).wf(),
    ensures
        same_input(*old(reader), *final(reader)),
        decoded(final(reader).pos, res, |v: Vec<u32>| v@, parse_vec(old(reader).bytes@, old(reader).pos as nat, p_val())),
{
    let ghost b = reader.bytes@;
    let n = reader.read_len()?;
    let ghost p1 = reader.pos as nat;
    let mut out: Vec<u32> = Vec::new();
    let mut i: usize = 0;
    while i < n
        invariant
            reader.wf(),
            reader.bytes@ == b,
            b == old(reader).bytes@,
            parse_vec(b, old(reader).pos as nat, p_val()) == parse_rep(b, p1, n as nat, p_val()),
            i <= n,
            parse_rep(b, p1, i as nat, p_val()) == Ok::<(Seq<u32>, nat), DecodeError>((out@, reader.pos as nat)),
        decreases n - i,
    {
        let v = match reader.read_val() {
            Ok(v) => v,
            Err(e) => {
                proof {
                    lemma_rep_err(b, p1, (i + 1) as nat, n as nat, p_val());
                }
                return Err(e);
            },
        };
        out.push(v);
        i = i + 1;
    }
    Ok(out)
}

fn decode_challenges(reader: &mut BlobReader) -> (res: Result<Vec<Challenge>, DecodeError>)
    requires
        old(reader).wf(),
    ensures
        same_input(*old(reader), *final(reader)),
        decoded(final(reader).pos, res, |v: Vec<Challenge>| v@, parse_vec(old(reader).bytes@, old(reader).pos as nat, p_chal())),
{
    let ghost b = reader.bytes@;
    let n = reader.read_len()?;
    let ghost p1 = reader.pos as nat;
    let mut out: Vec<Challenge> = Vec::new();
    let mut i: usize = 0;
    while i < n
        invariant
            reader.wf(),
            reader.bytes@ == b,
            b == old(reader).bytes@,
            parse_vec(b, old(reader).pos as nat, p_chal()) == parse_rep(b, p1, n as nat, p_chal()),
            i <= n,
            parse_rep(b, p1, i as nat, p_chal()) == Ok::<(Seq<Challenge>, nat), DecodeError>((out@, reader.pos as nat)),
        decreases n - i,
    {
        let v = match reader.read_challenge() {
            Ok(v) => v,
            Err(e) => {
                proof {
                    lemma_rep_err(b, p1, (i + 1) as nat, n as nat, p_chal());
                }
                return Err(e);
            },
        };
        out.push(v);
        i = i + 1;
    }
    Ok(out)
}

fn decode_digests(reader: &mut BlobReader) -> (res: Result<Vec<[u64; 4]>, DecodeError>)
    requires
        old(reader).wf(),
    ensures
        same_input(*old(reader), *final(reader)),
        decoded(final(reader).pos, res, |v: Vec<[u64; 4]>| digests_view(v@), parse_vec(old(reader).bytes@, old(reader).pos as nat, p_digest())),
{
    let ghost b = reader.bytes@;
    let n = reader.read_len()?;
    let ghost p1 = reader.pos as nat;
    let mut out: Vec<[u64; 4]> = Vec::new();
    assert(digests_view(out@) =~= Seq::<Seq<u64>>::empty());
    let mut i: usize = 0;
    while i < n
        invariant
            reader.wf(),
            reader.bytes@ == b,
            b == old(reader).bytes@,
            parse_vec(b, old(reader).pos as nat, p_digest()) == parse_rep(b, p1, n as nat, p_digest()),
            i <= n,
            parse_rep(b, p1, i as nat, p_digest()) == Ok::<(Seq<Seq<u64>>, nat), DecodeError>((digests_view(out@), reader.pos as nat)),
        decreases n - i,
    {
        let v = match reader.read_digest() {
            Ok(v) => v,
            Err(e) => {
                proof {
                    lemma_rep_err(b, p1, (i + 1) as nat, n as nat, p_digest());
                }
                return Err(e);
            },
        };
        let ghost old_out = out@;
        out.push(v);
        assert(digests_view(out@) =~= digests_view(old_out).push(v@));
        i = i + 1;
    }
    Ok(out)
}

fn decode_lens(reader: &mut BlobReader) -> (res: Result<Vec<usize>, DecodeError>)
    requires
        old(reader).wf(),
    ensures
        same_input(*old(reader), *final(reader)),
        decoded(final(reader).pos, res, |v: Vec<usize>| v@, parse_vec(old(reader).bytes@, old(reader).pos as nat, p_len())),
{
    let ghost b = reader.bytes@;
    let n = reader.read_len()?;
    let ghost p1 = reader.pos as nat;
    let mut out: Vec<usize> = Vec::new();
    let mut i: usize = 0;
    while i < n
        invariant
            reader.wf(),
            reader.bytes@ == b,
            b == old(reader).bytes@,
            parse_vec(b, old(reader).pos as nat, p_len()) == parse_rep(b, p1, n as nat, p_len()),
            i <= n,
            parse_rep(b, p1, i as nat, p_len()) == Ok::<(Seq<usize>, nat), DecodeError>((out@, reader.pos as nat)),
        decreases n - i,
    {
        let v = match reader.read_len() {
            Ok(v) => v,
            Err(e) => {
                proof {
                    lemma_rep_err(b, p1, (i + 1) as nat, n as nat, p_len());
                }
                return Err(e);
            },
        };
        out.push(v);
        i = i + 1;
    }
    Ok(out)
}

/// A length-prefixed list of round polynomials (or evaluation sets).
fn decode_polys(reader: &mut BlobReader) -> (res: Result<Vec<Vec<Challenge>>, DecodeError>)
    requires
        old(reader).wf(),
    ensures
        same_input(*old(reader), *final(reader)),
        decoded(final(reader).pos, res, |v: Vec<Vec<Challenge>>| polys_view(v@), parse_vec(old(reader).bytes@, old(reader).pos as nat, p_poly())),
{
    let ghost b = reader.bytes@;
    let n = reader.read_len()?;
    let ghost p1 = reader.pos as nat;
    let mut out: Vec<Vec<Challenge>> = Vec::new();
    assert(polys_view(out@) =~= Seq::<Seq<Challenge>>::empty());
    let mut i: usize = 0;
    while i < n
        invariant
            reader.wf(),
            reader.bytes@ == b,
            b == old(reader).bytes@,
            parse_vec(b, old(reader).pos as nat, p_poly()) == parse_rep(b, p1, n as nat, p_poly()),
            i <= n,
            parse_rep(b, p1, i as nat, p_poly()) == Ok::<(Seq<Seq<Challenge>>, nat), DecodeError>((polys_view(out@), reader.pos as nat)),
        decreases n - i,
    {
        let v = match decode_challenges(reader) {
            Ok(v) => v,
            Err(e) => {
                proof {
                    lemma_rep_err(b, p1, (i + 1) as nat, n as nat, p_poly());
                }
                return Err(e);
            },
        };
        let ghost old_out = out@;
        out.push(v);
        assert(polys_view(out@) =~= polys_view(old_out).push(v@));
        i = i + 1;
    }
    Ok(out)
}

fn decode_fraction(reader: &mut BlobReader) -> (res: Result<Fraction, DecodeError>)
    requires
        old(reader).wf(),
    ensures
        same_input(*old(reader), *final(reader)),
        decoded(final(reader).pos, res, |v: Fraction| v, parse_fraction(old(reader).bytes@, old(reader).pos as nat)),
{
    let numer = reader.read_challenge()?;
    let denom = reader.read_challenge()?;
    Ok(Fraction { numer, denom })
}

/// A length-prefixed list of fractions.
fn decode_fractions(reader: &mut BlobReader) -> (res: Result<Vec<Fraction>, DecodeError>)
    requires
        old(reader).wf(),
    ensures
        same_input(*old(reader), *final(reader)),
        decoded(final(reader).pos, res, |v: Vec<Fraction>| v@, parse_vec(old(reader).bytes@, old(reader).pos as nat, p_fraction())),
{
    let ghost b = reader.bytes@;
    let n = reader.read_len()?;
    let ghost p1 = reader.pos as nat;
    let mut out: Vec<Fraction> = Vec::new();
    assert(out@ =~= Seq::<Fraction>::empty());
    let mut i: usize = 0;
    while i < n
        invariant
            reader.wf(),
            reader.bytes@ == b,
            b == old(reader).bytes@,
            parse_vec(b, old(reader).pos as nat, p_fraction()) == parse_rep(b, p1, n as nat, p_fraction()),
            i <= n,
            parse_rep(b, p1, i as nat, p_fraction()) == Ok::<(Seq<Fraction>, nat), DecodeError>((out@, reader.pos as nat)),
        decreases n - i,
    {
        let v = match decode_fraction(reader) {
            Ok(v) => v,
            Err(e) => {
                proof {
                    lemma_rep_err(b, p1, (i + 1) as nat, n as nat, p_fraction());
                }
                return Err(e);
            },
        };
        let ghost old_out = out@;
        out.push(v);
        assert(out@ =~= old_out.push(v));
        i = i + 1;
    }
    Ok(out)
}

/// The per-AIR fraction lists.
fn decode_sums(reader: &mut BlobReader) -> (res: Result<Vec<Vec<Fraction>>, DecodeError>)
    requires
        old(reader).wf(),
    ensures
        same_input(*old(reader), *final(reader)),
        decoded(final(reader).pos, res, |v: Vec<Vec<Fraction>>| v@.map_values(|x: Vec<Fraction>| x@), parse_vec(old(reader).bytes@, old(reader).pos as nat, p_fractions())),
{
    let ghost b = reader.bytes@;
    let n = reader.read_len()?;
    let ghost p1 = reader.pos as nat;
    let mut out: Vec<Vec<Fraction>> = Vec::new();
    assert(out@.map_values(|x: Vec<Fraction>| x@) =~= Seq::<Seq<Fraction>>::empty());
    let mut i: usize = 0;
    while i < n
        invariant
            reader.wf(),
            reader.bytes@ == b,
            b == old(reader).bytes@,
            parse_vec(b, old(reader).pos as nat, p_fractions()) == parse_rep(b, p1, n as nat, p_fractions()),
            i <= n,
            parse_rep(b, p1, i as nat, p_fractions()) == Ok::<(Seq<Seq<Fraction>>, nat), DecodeError>((out@.map_values(|x: Vec<Fraction>| x@), reader.pos as nat)),
        decreases n - i,
    {
        let v = match decode_fractions(reader) {
            Ok(v) => v,
            Err(e) => {
                proof {
                    lemma_rep_err(b, p1, (i + 1) as nat, n as nat, p_fractions());
                }
                return Err(e);
            },
        };
        let ghost old_out = out@;
        out.push(v);
        assert(out@.map_values(|x: Vec<Fraction>| x@) =~= old_out.map_values(|x: Vec<Fraction>| x@).push(v@));
        i = i + 1;
    }
    Ok(out)
}

fn decode_batch_sumcheck_proof(reader: &mut BlobReader) -> (res: Result<BatchSumcheckProof, DecodeError>)
    requires
        old(reader).wf(),
    ensures
        same_input(*old(reader), *final(reader)),
        decoded(final(reader).pos, res, |v: BatchSumcheckProof| v@, parse_batch(old(reader).bytes@, old(reader).pos as nat)),
{
    let compressed_round_polys = decode_polys(reader)?;
    let evals = decode_polys(reader)?;
    Ok(BatchSumcheckProof { compressed_round_polys, evals })
}

/// The per-layer batched sumchecks.
fn decode_layers(reader: &mut BlobReader) -> (res: Result<Vec<BatchSumcheckProof>, DecodeError>)
    requires
        old(reader).wf(),
    ensures
        same_input(*old(reader), *final(reader)),
        decoded(final(reader).pos, res, |v: Vec<BatchSumcheckProof>| v@.map_values(|x: BatchSumcheckProof| x@), parse_vec(old(reader).bytes@, old(reader).pos as nat, p_batch())),
{
    let ghost b = reader.bytes@;
    let n = reader.read_len()?;
    let ghost p1 = reader.pos as nat;
    let mut out: Vec<BatchSumcheckProof> = Vec::new();
    assert(out@.map_values(|x: BatchSumcheckProof| x@) =~= Seq::<crate::model::SpecBatchSumcheck>::empty());
    let mut i: usize = 0;
    while i < n
        invariant
            reader.wf(),
            reader.bytes@ == b,
            b == old(reader).bytes@,
            parse_vec(b, old(reader).pos as nat, p_batch()) == parse_rep(b, p1, n as nat, p_batch()),
            i <= n,
            parse_rep(b, p1, i as nat, p_batch()) == Ok::<(Seq<crate::model::SpecBatchSumcheck>, nat), DecodeError>((out@.map_values(|x: BatchSumcheckProof| x@), reader.pos as nat)),
        decreases n - i,
    {
        let v = match decode_batch_sumcheck_proof(reader) {
            Ok(v) => v,
            Err(e) => {
                proof {
                    lemma_rep_err(b, p1, (i + 1) as nat, n as nat, p_batch());
                }
                return Err(e);
            },
        };
        let ghost old_out = out@;
        out.push(v);
        assert(out@.map_values(|x: BatchSumcheckProof| x@) =~= old_out.map_values(|x: BatchSumcheckProof| x@).push(v@));
        i = i + 1;
    }
    Ok(out)
}

fn decode_fractional_sum(reader: &mut BlobReader) -> (res: Result<FractionalSumProof, DecodeError>)
    requires
        old(reader).wf(),
    ensures
        same_input(*old(reader), *final(reader)),
        decoded(final(reader).pos, res, |v: FractionalSumProof| v@, parse_fractional_sum(old(reader).bytes@, old(reader).pos as nat)),
{
    proof {
        reveal(parse_fractional_sum);
    }
    let sums = decode_sums(reader)?;
    let layers = decode_layers(reader)?;
    Ok(FractionalSumProof { sums, layers })
}

fn decode_skip(reader: &mut BlobReader) -> (res: Result<AirUnivariateSkipProof, DecodeError>)
    requires
        old(reader).wf(),
    ensures
        same_input(*old(reader), *final(reader)),
        decoded(final(reader).pos, res, |v: AirUnivariateSkipProof| v@, parse_skip(old(reader).bytes@, old(reader).pos as nat)),
{
    let skip_rounds = reader.read_len()?;
    let zero_check_round_poly = decode_challenges(reader)?;
    let eval_check_round_poly = decode_challenges(reader)?;
    Ok(AirUnivariateSkipProof { skip_rounds, zero_check_round_poly, eval_check_round_poly })
}

/// The univariate-skip proofs.
fn decode_skips(reader: &mut BlobReader) -> (res: Result<Vec<AirUnivariateSkipProof>, DecodeError>)
    requires
        old(reader).wf(),
    ensures
        same_input(*old(reader), *final(reader)),
        decoded(final(reader).pos, res, |v: Vec<AirUnivariateSkipProof>| v@.map_values(|x: AirUnivariateSkipProof| x@), parse_vec(old(reader).bytes@, old(reader).pos as nat, p_skip())),
{
    let ghost b = reader.bytes@;
    let n = reader.read_len()?;
    let ghost p1 = reader.pos as nat;
    let mut out: Vec<AirUnivariateSkipProof> = Vec::new();
    assert(out@.map_values(|x: AirUnivariateSkipProof| x@) =~= Seq::<crate::model::SpecSkip>::empty());
    let mut i: usize = 0;
    while i < n
        invariant
            reader.wf(),
            reader.bytes@ == b,
            b == old(reader).bytes@,
            parse_vec(b, old(reader).pos as nat, p_skip()) == parse_rep(b, p1, n as nat, p_skip()),
            i <= n,
            parse_rep(b, p1, i as nat, p_skip()) == Ok::<(Seq<crate::model::SpecSkip>, nat), DecodeError>((out@.map_values(|x: AirUnivariateSkipProof| x@), reader.pos as nat)),
        decreases n - i,
    {
        let v = match decode_skip(reader) {
            Ok(v) => v,
            Err(e) => {
                proof {
                    lemma_rep_err(b, p1, (i + 1) as nat, n as nat, p_skip());
                }
                return Err(e);
            },
        };
        let ghost old_out = out@;
        out.push(v);
        assert(out@.map_values(|x: AirUnivariateSkipProof| x@) =~= old_out.map_values(|x: AirUnivariateSkipProof| x@).push(v@));
        i = i + 1;
    }
    Ok(out)
}

fn decode_air_proof(reader: &mut BlobReader) -> (res: Result<AirProof, DecodeError>)
    requires
        old(reader).wf(),
    ensures
        same_input(*old(reader), *final(reader)),
        decoded(final(reader).pos, res, |v: AirProof| v@, parse_air(old(reader).bytes@, old(reader).pos as nat)),
{
    proof {
        reveal(parse_air);
    }
    let univariate_skips = decode_skips(reader)?;
    let regular = decode_batch_sumcheck_proof(reader)?;
    let univariate_eval_check = decode_batch_sumcheck_proof(reader)?;
    Ok(AirProof { univariate_skips, regular, univariate_eval_check })
}

fn decode_piop(reader: &mut BlobReader) -> (res: Result<PiopProof, DecodeError>)
    requires
        old(reader).wf(),
    ensures
        same_input(*old(reader), *final(reader)),
        decoded(final(reader).pos, res, |v: PiopProof| v@, parse_piop(old(reader).bytes@, old(reader).pos as nat)),
{
    let fractional_sum = decode_fractional_sum(reader)?;
    let air = decode_air_proof(reader)?;
    Ok(PiopProof { fractional_sum, air })
}

fn decode_pair(reader: &mut BlobReader) -> (res: Result<[Challenge; 2], DecodeError>)
    requires
        old(reader).wf(),
    ensures
        same_input(*old(reader), *final(reader)),
        decoded(final(reader).pos, res, |v: [Challenge; 2]| pair_view(v), parse_pair(old(reader).bytes@, old(reader).pos as nat)),
{
    let c0 = reader.read_challenge()?;
    let c2 = reader.read_challenge()?;
    let out = [c0, c2];
    assert(out@[0] == c0 && out@[1] == c2);
    Ok(out)
}

/// The sumcheck round evaluations.
fn decode_pairs(reader: &mut BlobReader) -> (res: Result<Vec<[Challenge; 2]>, DecodeError>)
    requires
        old(reader).wf(),
    ensures
        same_input(*old(reader), *final(reader)),
        decoded(final(reader).pos, res, |v: Vec<[Challenge; 2]>| v@.map_values(|x: [Challenge; 2]| pair_view(x)), parse_vec(old(reader).bytes@, old(reader).pos as nat, p_pair())),
{
    let ghost b = reader.bytes@;
    let n = reader.read_len()?;
    let ghost p1 = reader.pos as nat;
    let mut out: Vec<[Challenge; 2]> = Vec::new();
    assert(out@.map_values(|x: [Challenge; 2]| pair_view(x)) =~= Seq::<(Challenge, Challenge)>::empty());
    let mut i: usize = 0;
    while i < n
        invariant
            reader.wf(),
            reader.bytes@ == b,
            b == old(reader).bytes@,
            parse_vec(b, old(reader).pos as nat, p_pair()) == parse_rep(b, p1, n as nat, p_pair()),
            i <= n,
            parse_rep(b, p1, i as nat, p_pair()) == Ok::<(Seq<(Challenge, Challenge)>, nat), DecodeError>((out@.map_values(|x: [Challenge; 2]| pair_view(x)), reader.pos as nat)),
        decreases n - i,
    {
        let v = match decode_pair(reader) {
            Ok(v) => v,
            Err(e) => {
                proof {
                    lemma_rep_err(b, p1, (i + 1) as nat, n as nat, p_pair());
                }
                return Err(e);
            },
        };
        let ghost old_out = out@;
        out.push(v);
        assert(out@.map_values(|x: [Challenge; 2]| pair_view(x)) =~= old_out.map_values(|x: [Challenge; 2]| pair_view(x)).push(pair_view(v)));
        i = i + 1;
    }
    Ok(out)
}

fn decode_whir_sumcheck(reader: &mut BlobReader) -> (res: Result<SumcheckData, DecodeError>)
    requires
        old(reader).wf(),
    ensures
        same_input(*old(reader), *final(reader)),
        decoded(final(reader).pos, res, |v: SumcheckData| v@, parse_sumcheck(old(reader).bytes@, old(reader).pos as nat)),
{
    let polynomial_evaluations = decode_pairs(reader)?;
    let pow_witnesses = decode_vals(reader)?;
    Ok(SumcheckData { polynomial_evaluations, pow_witnesses })
}

fn decode_query_opening(reader: &mut BlobReader) -> (res: Result<QueryOpening, DecodeError>)
    requires
        old(reader).wf(),
    ensures
        same_input(*old(reader), *final(reader)),
        decoded(final(reader).pos, res, |v: QueryOpening| v@, parse_query(old(reader).bytes@, old(reader).pos as nat)),
{
    let tag = reader.read_u8()?;
    if tag == 0 {
        let values = decode_vals(reader)?;
        let proof = decode_digests(reader)?;
        Ok(QueryOpening::Base { values, proof })
    } else if tag == 1 {
        let values = decode_challenges(reader)?;
        let proof = decode_digests(reader)?;
        Ok(QueryOpening::Extension { values, proof })
    } else {
        Err(DecodeError::UnknownQueryTag)
    }
}

/// A length-prefixed list of query openings.
fn decode_queries(reader: &mut BlobReader) -> (res: Result<Vec<QueryOpening>, DecodeError>)
    requires
        old(reader).wf(),
    ensures
        same_input(*old(reader), *final(reader)),
        decoded(final(reader).pos, res, |v: Vec<QueryOpening>| queries_view(v@), parse_vec(old(reader).bytes@, old(reader).pos as nat, p_query())),
{
    let ghost b = reader.bytes@;
    let n = reader.read_len()?;
    let ghost p1 = reader.pos as nat;
    let mut out: Vec<QueryOpening> = Vec::new();
    assert(queries_view(out@) =~= Seq::<crate::model::SpecQuery>::empty());
    let mut i: usize = 0;
    while i < n
        invariant
            reader.wf(),
            reader.bytes@ == b,
            b == old(reader).bytes@,
            parse_vec(b, old(reader).pos as nat, p_query()) == parse_rep(b, p1, n as nat, p_query()),
            i <= n,
            parse_rep(b, p1, i as nat, p_query()) == Ok::<(Seq<crate::model::SpecQuery>, nat), DecodeError>((queries_view(out@), reader.pos as nat)),
        decreases n - i,
    {
        let v = match decode_query_opening(reader) {
            Ok(v) => v,
            Err(e) => {
                proof {
                    lemma_rep_err(b, p1, (i + 1) as nat, n as nat, p_query());
                }
                return Err(e);
            },
        };
        let ghost old_out = out@;
        out.push(v);
        assert(queries_view(out@) =~= queries_view(old_out).push(v@));
        i = i + 1;
    }
    Ok(out)
}

fn decode_whir_round(reader: &mut BlobReader) -> (res: Result<WhirRoundProof, DecodeError>)
    requires
        old(reader).wf(),
    ensures
        same_input(*old(reader), *final(reader)),
        decoded(final(reader).pos, res, |v: WhirRoundProof| v@, parse_round(old(reader).bytes@, old(reader).pos as nat)),
{
    proof {
        reveal(parse_round);
    }
    let commitment = reader.read_digest()?;
    let ood_answers = decode_challenges(reader)?;
    let pow_witness = reader.read_val()?;
    let queries = decode_queries(reader)?;
    let sumcheck = decode_whir_sumcheck(reader)?;
    Ok(WhirRoundProof { commitment, ood_answers, pow_witness, queries, sumcheck })
}

/// The WHIR folding rounds.
fn decode_rounds(reader: &mut BlobReader) -> (res: Result<Vec<WhirRoundProof>, DecodeError>)
    requires
        old(reader).wf(),
    ensures
        same_input(*old(reader), *final(reader)),
        decoded(final(reader).pos, res, |v: Vec<WhirRoundProof>| v@.map_values(|x: WhirRoundProof| x@), parse_vec(old(reader).bytes@, old(reader).pos as nat, p_round())),
{
    let ghost b = reader.bytes@;
    let n = reader.read_len()?;
    let ghost p1 = reader.pos as nat;
    let mut out: Vec<WhirRoundProof> = Vec::new();
    assert(out@.map_values(|x: WhirRoundProof| x@) =~= Seq::<crate::model::SpecRound>::empty());
    let mut i: usize = 0;
    while i < n
        invariant
            reader.wf(),
            reader.bytes@ == b,
            b == old(reader).bytes@,
            parse_vec(b, old(reader).pos as nat, p_round()) == parse_rep(b, p1, n as nat, p_round()),
            i <= n,
            parse_rep(b, p1, i as nat, p_round()) == Ok::<(Seq<crate::model::SpecRound>, nat), DecodeError>((out@.map_values(|x: WhirRoundProof| x@), reader.pos as nat)),
        decreases n - i,
    {
        let v = match decode_whir_round(reader) {
            Ok(v) => v,
            Err(e) => {
                proof {
                    lemma_rep_err(b, p1, (i + 1) as nat, n as nat, p_round());
                }
                return Err(e);
            },
        };
        let ghost old_out = out@;
        out.push(v);
        assert(out@.map_values(|x: WhirRoundProof| x@) =~= old_out.map_values(|x: WhirRoundProof| x@).push(v@));
        i = i + 1;
    }
    Ok(out)
}

/// The final polynomial's evaluations; their number must be a power of two.
fn decode_final_poly(reader: &mut BlobReader) -> (res: Result<Vec<Challenge>, DecodeError>)
    requires
        old(reader).wf(),
    ensures
        same_input(*old(reader), *final(reader)),
        decoded(final(reader).pos, res, |v: Vec<Challenge>| v@, parse_final_poly(old(reader).bytes@, old(reader).pos as nat)),
{
    let ghost b = reader.bytes@;
    let n = reader.read_len()?;
    if !is_power_of_two(n) {
        return Err(DecodeError::FinalPolyNotPowerOfTwo);
    }
    let ghost p1 = reader.pos as nat;
    let mut out: Vec<Challenge> = Vec::new();
    let mut i: usize = 0;
    while i < n
        invariant
            reader.wf(),
            reader.bytes@ == b,
            b == old(reader).bytes@,
            parse_final_poly(b, old(reader).pos as nat) == parse_rep(b, p1, n as nat, p_chal()),
            i <= n,
            parse_rep(b, p1, i as nat, p_chal()) == Ok::<(Seq<Challenge>, nat), DecodeError>((out@, reader.pos as nat)),
        decreases n - i,
    {
        let v = match reader.read_challenge() {
            Ok(v) => v,
            Err(e) => {
                proof {
                    lemma_rep_err(b, p1, (i + 1) as nat, n as nat, p_chal());
                }
                return Err(e);
            },
        };
        out.push(v);
        i = i + 1;
    }
    Ok(out)
}

impl<'a> BlobReader<'a> {
    /// Reads the presence tag of an optional section: `0` absent, `1` present; when present,
    /// the caller reads the section next.
    pub fn read_option(&mut self) -> (res: Result<bool, DecodeError>)
        requires
            old(self).wf(),
        ensures
            same_input(*old(self), *final(self)),
            match crate::blob::parse_u8(old(self).bytes@, old(self).pos as nat) {
                Err(e) => res == Err::<bool, DecodeError>(e),
                Ok((tag, q)) => if tag == 0 {
                    res == Ok::<bool, DecodeError>(false) && final(self).pos == q
                } else if tag == 1 {
                    res == Ok::<bool, DecodeError>(true) && final(self).pos == q
                } else {
                    res == Err::<bool, DecodeError>(DecodeError::UnknownOptionTag)
                },
            },
    {
        let tag = self.read_u8()?;
        if tag == 0 {
            Ok(false)
        } else if tag == 1 {
            Ok(true)
        } else {
            Err(DecodeError::UnknownOptionTag)
        }
    }
}

fn decode_whir_proof(reader: &mut BlobReader) -> (res: Result<WhirProof, DecodeError>)
    requires
        old(reader).wf(),
    ensures
        same_input(*old(reader), *final(reader)),
        decoded(final(reader).pos, res, |v: WhirProof| v@, parse_whir(old(reader).bytes@, old(reader).pos as nat)),
{
    proof {
        reveal(parse_whir_head);
        reveal(parse_whir_tail);
    }
    let ghost b = reader.bytes@;
    let initial_commitment = reader.read_digest()?;
    let initial_ood_answers = decode_challenges(reader)?;
    let initial_sumcheck = decode_whir_sumcheck(reader)?;
    let rounds = decode_rounds(reader)?;
    let ghost p4 = reader.pos as nat;
    let final_poly = if reader.read_option()? {
        Some(decode_final_poly(reader)?)
    } else {
        None
    };
    assert(parse_option(b, p4, p_final_poly()) == Ok::<(Option<Seq<Challenge>>, nat), DecodeError>((
        match final_poly { Some(p) => Some(p@), None => None },
        reader.pos as nat,
    )));
    let final_pow_witness = reader.read_val()?;
    let final_queries = decode_queries(reader)?;
    let ghost p7 = reader.pos as nat;
    let final_sumcheck = if reader.read_option()? {
        Some(decode_whir_sumcheck(reader)?)
    } else {
        None
    };
    assert(parse_option(b, p7, p_sumcheck()) == Ok::<(Option<crate::model::SpecSumcheck>, nat), DecodeError>((
        match final_sumcheck { Some(s) => Some(s@), None => None },
        reader.pos as nat,
    )));
    Ok(WhirProof {
        initial_commitment,
        initial_ood_answers,
        initial_sumcheck,
        rounds,
        final_poly,
        final_pow_witness,
        final_queries,
        final_sumcheck,
    })
}

/// The WHIR opening proofs.
fn decode_pcs(reader: &mut BlobReader) -> (res: Result<Vec<WhirProof>, DecodeError>)
    requires
        old(reader).wf(),
    ensures
        same_input(*old(reader), *final(reader)),
        decoded(final(reader).pos, res, |v: Vec<WhirProof>| v@.map_values(|x: WhirProof| x@), parse_vec(old(reader).bytes@, old(reader).pos as nat, p_whir())),
{
    let ghost b = reader.bytes@;
    let n = reader.read_len()?;
    let ghost p1 = reader.pos as nat;
    let mut out: Vec<WhirProof> = Vec::new();
    assert(out@.map_values(|x: WhirProof| x@) =~= Seq::<crate::model::SpecWhir>::empty());
    let mut i: usize = 0;
    while i < n
        invariant
            reader.wf(),
            reader.bytes@ == b,
            b == old(reader).bytes@,
            parse_vec(b, old(reader).pos as nat, p_whir()) == parse_rep(b, p1, n as nat, p_whir()),
            i <= n,
            parse_rep(b, p1, i as nat, p_whir()) == Ok::<(Seq<crate::model::SpecWhir>, nat), DecodeError>((out@.map_values(|x: WhirProof| x@), reader.pos as nat)),
        decreases n - i,
    {
        let v = match decode_whir_proof(reader) {
            Ok(v) => v,
            Err(e) => {
                proof {
                    lemma_rep_err(b, p1, (i + 1) as nat, n as nat, p_whir());
                }
                return Err(e);
            },
        };
        let ghost old_out = out@;
        out.push(v);
        assert(out@.map_values(|x: WhirProof| x@) =~= old_out.map_values(|x: WhirProof| x@).push(v@));
        i = i + 1;
    }
    Ok(out)
}

/// The per-AIR public values.
fn decode_public_inputs(reader: &mut BlobReader) -> (res: Result<Vec<Vec<u32>>, DecodeError>)
    requires
        old(reader).wf(),
    ensures
        same_input(*old(reader), *final(reader)),
        decoded(final(reader).pos, res, |v: Vec<Vec<u32>>| vals_view(v@), parse_vec(old(reader).bytes@, old(reader).pos as nat, p_vals())),
{
    let ghost b = reader.bytes@;
    let n = reader.read_len()?;
    let ghost p1 = reader.pos as nat;
    let mut out: Vec<Vec<u32>> = Vec::new();
    assert(vals_view(out@) =~= Seq::<Seq<u32>>::empty());
    let mut i: usize = 0;
    while i < n
        invariant
            reader.wf(),
            reader.bytes@ == b,
            b == old(reader).bytes@,
            parse_vec(b, old(reader).pos as nat, p_vals()) == parse_rep(b, p1, n as nat, p_vals()),
            i <= n,
            parse_rep(b, p1, i as nat, p_vals()) == Ok::<(Seq<Seq<u32>>, nat), DecodeError>((vals_view(out@), reader.pos as nat)),
        decreases n - i,
    {
        let v = match decode_vals(reader) {
            Ok(v) => v,
            Err(e) => {
                proof {
                    lemma_rep_err(b, p1, (i + 1) as nat, n as nat, p_vals());
                }
                return Err(e);
            },
        };
        let ghost old_out = out@;
        out.push(v);
        assert(vals_view(out@) =~= vals_view(old_out).push(v@));
        i = i + 1;
    }
    Ok(out)
}

/// Decodes a proof blob: its public inputs and proof, or why the bytes are not a proof blob.
/// Decoding is strict: only canonical length encodings are read, tags must be known, a final
/// polynomial must have a power-of-two length and no byte may follow the proof.
pub fn decode_proof_blob_v1(bytes: &[u8]) -> (res: Result<DecodedProofBlob, DecodeError>)
    ensures
        match parse_blob(bytes@) {
            Ok(v) => res is Ok && res->Ok_0@ == v,
            Err(e) => res == Err::<DecodedProofBlob, DecodeError>(e),
        },
{
    let mut reader = BlobReader::new(bytes);
    let magic = reader.read_exact(4)?;
    if !crate::blob::bytes_equal(magic, crate::encode::PROOF_BLOB_MAGIC.as_slice()) {
        proof {
            assert(crate::encode::PROOF_BLOB_MAGIC@ =~= crate::format::blob_magic());
        }
        return Err(DecodeError::InvalidMagic);
    }
    proof {
        assert(crate::encode::PROOF_BLOB_MAGIC@ =~= crate::format::blob_magic());
        assert(bytes@.subrange(0, 4) =~= magic@);
    }
    let version = reader.read_u8()?;
    if version != crate::format::PROOF_BLOB_VERSION {
        return Err(DecodeError::UnsupportedVersion);
    }
    let public_inputs = decode_public_inputs(&mut reader)?;
    let log_bs = decode_lens(&mut reader)?;
    let commitment = reader.read_digest()?;
    let piop = decode_piop(&mut reader)?;
    let pcs = decode_pcs(&mut reader)?;
    if !reader.is_eof() {
        return Err(DecodeError::TrailingBytes);
    }
    Ok(DecodedProofBlob { public_inputs, proof: HyperPlonkProof { log_bs, commitment, piop, pcs } })
}

} // verus!
