//! Writing a proof blob.
use crate::blob::{
    challenge_bytes, flat, offsets_after, emits, lemma_emits_plain, lemma_emits_seq,
    lemma_emits_tok, BlobWriter, Mark, ProofBlobOffsets, Tok,
};
use crate::field::Challenge;
use crate::format::{
    blob_bytes, blob_magic, f_batch, f_chal, f_final_poly, f_fraction, f_fractions, f_len, f_pair,
    f_query, f_round, f_sc_poly, f_sibling, f_skip, f_sumcheck, f_val, f_vals, f_whir,
    lemma_emits_rep_step, lemma_rep_take0, lemma_rep_take_all, t_chal, t_digest, t_len, t_u8, t_val,
    toks_air, toks_batch, toks_blob, toks_final_poly, toks_fraction, toks_fractional_sum,
    toks_option, toks_piop, toks_query, toks_rep, toks_round, toks_skip, toks_sumcheck, toks_vec,
    toks_whir, PROOF_BLOB_VERSION,
};
use crate::keccak::digest_bytes;
use crate::model::{
    digests_view, pair_view, polys_view, queries_view, vals_view, AirProof, AirUnivariateSkipProof,
    BatchSumcheckProof, Fraction, FractionalSumProof, HyperPlonkProof, PiopProof, QueryOpening,
    SumcheckData, WhirProof, WhirRoundProof,
};
use vstd::prelude::*;

verus! {

/// Writes a length-prefixed list of sumcheck coefficients, recording the first coefficient.
fn encode_round_poly(writer: &mut BlobWriter, poly: &Vec<Challenge>, offsets: &mut ProofBlobOffsets)
    ensures
        emits(old(writer)@, final(writer)@, *old(offsets), *final(offsets), f_sc_poly()(poly@)),
{
    let ghost w0 = writer@;
    let ghost o0 = *offsets;
    writer.write_len(poly.len());
    proof {
        lemma_emits_plain(w0, writer@, o0, crate::blob::varuint(poly.len() as u64));
        lemma_rep_take0(t_len(poly@.len()), poly@, f_chal(Mark::SumcheckCoeff));
    }
    let mut i: usize = 0;
    while i < poly.len()
        invariant
            i <= poly@.len(),
            emits(
                w0,
                writer@,
                o0,
                *offsets,
                t_len(poly@.len()) + toks_rep(poly@.take(i as int), f_chal(Mark::SumcheckCoeff)),
            ),
        decreases poly@.len() - i,
    {
        let ghost w1 = writer@;
        let ghost o1 = *offsets;
        writer.write_challenge_marked(poly[i], &mut offsets.first_sumcheck_coeff_offset);
        proof {
            lemma_emits_tok(w1, writer@, o1, Mark::SumcheckCoeff, challenge_bytes(poly@[i as int]));
            lemma_emits_rep_step(
                w0,
                w1,
                writer@,
                o0,
                o1,
                *offsets,
                t_len(poly@.len()),
                poly@,
                i as int,
                f_chal(Mark::SumcheckCoeff),
            );
        }
        i = i + 1;
    }
    proof {
        lemma_rep_take_all(poly@);
    }
}

/// Writes the length prefix of a list.
fn encode_list_len(writer: &mut BlobWriter, n: usize, offsets: &ProofBlobOffsets)
    ensures
        emits(old(writer)@, final(writer)@, *offsets, *offsets, t_len(n as nat)),
{
    let ghost w0 = writer@;
    writer.write_len(n);
    proof {
        lemma_emits_plain(w0, writer@, *offsets, crate::blob::varuint(n as u64));
    }
}

/// Writes a length-prefixed list of round polynomials (or evaluation sets).
fn encode_polys(
    writer: &mut BlobWriter,
    polys: &Vec<Vec<Challenge>>,
    offsets: &mut ProofBlobOffsets,
)
    ensures
        emits(
            old(writer)@,
            final(writer)@,
            *old(offsets),
            *final(offsets),
            toks_vec(polys_view(polys@), f_sc_poly()),
        ),
{
    let ghost xs = polys_view(polys@);
    let ghost w0 = writer@;
    let ghost o0 = *offsets;
    encode_list_len(writer, polys.len(), offsets);
    proof {
        lemma_rep_take0(t_len(xs.len()), xs, f_sc_poly());
    }
    let mut i: usize = 0;
    while i < polys.len()
        invariant
            i <= polys@.len(),
            xs == polys_view(polys@),
            emits(w0, writer@, o0, *offsets, t_len(xs.len()) + toks_rep(xs.take(i as int), f_sc_poly())),
        decreases polys@.len() - i,
    {
        let ghost w1 = writer@;
        let ghost o1 = *offsets;
        encode_round_poly(writer, &polys[i], offsets);
        proof {
            lemma_emits_rep_step(w0, w1, writer@, o0, o1, *offsets, t_len(xs.len()), xs, i as int, f_sc_poly());
        }
        i = i + 1;
    }
    proof {
        lemma_rep_take_all(xs);
    }
}

fn encode_batch_sumcheck_proof(
    writer: &mut BlobWriter,
    proof: &BatchSumcheckProof,
    offsets: &mut ProofBlobOffsets,
)
    ensures
        emits(old(writer)@, final(writer)@, *old(offsets), *final(offsets), toks_batch(proof@)),
{
    let ghost w0 = writer@;
    let ghost o0 = *offsets;
    encode_polys(writer, &proof.compressed_round_polys, offsets);
    let ghost w1 = writer@;
    let ghost o1 = *offsets;
    encode_polys(writer, &proof.evals, offsets);
    proof {
        lemma_emits_seq(
            w0,
            w1,
            writer@,
            o0,
            o1,
            *offsets,
            toks_vec(proof@.compressed_round_polys, f_sc_poly()),
            toks_vec(proof@.evals, f_sc_poly()),
        );
    }
}

fn encode_fraction(writer: &mut BlobWriter, fraction: &Fraction, offsets: &mut ProofBlobOffsets)
    ensures
        emits(old(writer)@, final(writer)@, *old(offsets), *final(offsets), toks_fraction(*fraction)),
{
    let ghost w0 = writer@;
    let ghost o0 = *offsets;
    writer.write_challenge_marked(fraction.numer, &mut offsets.first_sumcheck_coeff_offset);
    let ghost w1 = writer@;
    let ghost o1 = *offsets;
    proof {
        lemma_emits_tok(w0, w1, o0, Mark::SumcheckCoeff, challenge_bytes(fraction.numer));
    }
    writer.write_challenge_marked(fraction.denom, &mut offsets.first_sumcheck_coeff_offset);
    proof {
        lemma_emits_tok(w1, writer@, o1, Mark::SumcheckCoeff, challenge_bytes(fraction.denom));
        lemma_emits_seq(
            w0,
            w1,
            writer@,
            o0,
            o1,
            *offsets,
            t_chal(Mark::SumcheckCoeff, fraction.numer),
            t_chal(Mark::SumcheckCoeff, fraction.denom),
        );
    }
}

fn encode_fractions(writer: &mut BlobWriter, fractions: &Vec<Fraction>, offsets: &mut ProofBlobOffsets)
    ensures
        emits(old(writer)@, final(writer)@, *old(offsets), *final(offsets), f_fractions()(fractions@)),
{
    let ghost xs = fractions@;
    let ghost w0 = writer@;
    let ghost o0 = *offsets;
    encode_list_len(writer, fractions.len(), offsets);
    proof {
        lemma_rep_take0(t_len(xs.len()), xs, f_fraction());
    }
    let mut i: usize = 0;
    while i < fractions.len()
        invariant
            i <= fractions@.len(),
            xs == fractions@,
            emits(w0, writer@, o0, *offsets, t_len(xs.len()) + toks_rep(xs.take(i as int), f_fraction())),
        decreases fractions@.len() - i,
    {
        let ghost w1 = writer@;
        let ghost o1 = *offsets;
        encode_fraction(writer, &fractions[i], offsets);
        proof {
            lemma_emits_rep_step(w0, w1, writer@, o0, o1, *offsets, t_len(xs.len()), xs, i as int, f_fraction());
        }
        i = i + 1;
    }
    proof {
        lemma_rep_take_all(xs);
    }
}

fn encode_fractional_sum(
    writer: &mut BlobWriter,
    proof: &FractionalSumProof,
    offsets: &mut ProofBlobOffsets,
)
    ensures
        emits(old(writer)@, final(writer)@, *old(offsets), *final(offsets), toks_fractional_sum(proof@)),
{
    let ghost sums = proof@.sums;
    let ghost layers = proof@.layers;
    let ghost w0 = writer@;
    let ghost o0 = *offsets;
    encode_list_len(writer, proof.sums.len(), offsets);
    proof {
        lemma_rep_take0(t_len(sums.len()), sums, f_fractions());
    }
    let mut i: usize = 0;
    while i < proof.sums.len()
        invariant
            i <= proof.sums@.len(),
            sums == proof@.sums,
            emits(w0, writer@, o0, *offsets, t_len(sums.len()) + toks_rep(sums.take(i as int), f_fractions())),
        decreases proof.sums@.len() - i,
    {
        let ghost w1 = writer@;
        let ghost o1 = *offsets;
        encode_fractions(writer, &proof.sums[i], offsets);
        proof {
            lemma_emits_rep_step(w0, w1, writer@, o0, o1, *offsets, t_len(sums.len()), sums, i as int, f_fractions());
        }
        i = i + 1;
    }
    proof {
        lemma_rep_take_all(sums);
    }
    let ghost w2 = writer@;
    let ghost o2 = *offsets;
    encode_list_len(writer, proof.layers.len(), offsets);
    proof {
        lemma_rep_take0(t_len(layers.len()), layers, f_batch());
    }
    let mut j: usize = 0;
    while j < proof.layers.len()
        invariant
            j <= proof.layers@.len(),
            layers == proof@.layers,
            emits(w2, writer@, o2, *offsets, t_len(layers.len()) + toks_rep(layers.take(j as int), f_batch())),
        decreases proof.layers@.len() - j,
    {
        let ghost w1 = writer@;
        let ghost o1 = *offsets;
        encode_batch_sumcheck_proof(writer, &proof.layers[j], offsets);
        proof {
            lemma_emits_rep_step(w2, w1, writer@, o2, o1, *offsets, t_len(layers.len()), layers, j as int, f_batch());
        }
        j = j + 1;
    }
    proof {
        lemma_rep_take_all(layers);
        lemma_emits_seq(
            w0,
            w2,
            writer@,
            o0,
            o2,
            *offsets,
            toks_vec(sums, f_fractions()),
            toks_vec(layers, f_batch()),
        );
    }
}

fn encode_skip(writer: &mut BlobWriter, skip: &AirUnivariateSkipProof, offsets: &mut ProofBlobOffsets)
    ensures
        emits(old(writer)@, final(writer)@, *old(offsets), *final(offsets), toks_skip(skip@)),
{
    let ghost w0 = writer@;
    let ghost o0 = *offsets;
    encode_list_len(writer, skip.skip_rounds, offsets);
    let ghost w1 = writer@;
    encode_round_poly(writer, &skip.zero_check_round_poly, offsets);
    let ghost w2 = writer@;
    let ghost o2 = *offsets;
    proof {
        lemma_emits_seq(w0, w1, w2, o0, o0, o2, t_len(skip.skip_rounds as nat), f_sc_poly()(skip@.zero_check_round_poly));
    }
    encode_round_poly(writer, &skip.eval_check_round_poly, offsets);
    proof {
        lemma_emits_seq(
            w0,
            w2,
            writer@,
            o0,
            o2,
            *offsets,
            t_len(skip.skip_rounds as nat) + f_sc_poly()(skip@.zero_check_round_poly),
            f_sc_poly()(skip@.eval_check_round_poly),
        );
    }
}

fn encode_air_proof(writer: &mut BlobWriter, proof: &AirProof, offsets: &mut ProofBlobOffsets)
    ensures
        emits(old(writer)@, final(writer)@, *old(offsets), *final(offsets), toks_air(proof@)),
{
    let ghost skips = proof@.univariate_skips;
    let ghost w0 = writer@;
    let ghost o0 = *offsets;
    encode_list_len(writer, proof.univariate_skips.len(), offsets);
    proof {
        lemma_rep_take0(t_len(skips.len()), skips, f_skip());
    }
    let mut i: usize = 0;
    while i < proof.univariate_skips.len()
        invariant
            i <= proof.univariate_skips@.len(),
            skips == proof@.univariate_skips,
            emits(w0, writer@, o0, *offsets, t_len(skips.len()) + toks_rep(skips.take(i as int), f_skip())),
        decreases proof.univariate_skips@.len() - i,
    {
        let ghost w1 = writer@;
        let ghost o1 = *offsets;
        encode_skip(writer, &proof.univariate_skips[i], offsets);
        proof {
            lemma_emits_rep_step(w0, w1, writer@, o0, o1, *offsets, t_len(skips.len()), skips, i as int, f_skip());
        }
        i = i + 1;
    }
    proof {
        lemma_rep_take_all(skips);
    }
    let ghost w1 = writer@;
    let ghost o1 = *offsets;
    encode_batch_sumcheck_proof(writer, &proof.regular, offsets);
    let ghost w2 = writer@;
    let ghost o2 = *offsets;
    proof {
        lemma_emits_seq(w0, w1, w2, o0, o1, o2, toks_vec(skips, f_skip()), toks_batch(proof@.regular));
    }
    encode_batch_sumcheck_proof(writer, &proof.univariate_eval_check, offsets);
    proof {
        lemma_emits_seq(
            w0,
            w2,
            writer@,
            o0,
            o2,
            *offsets,
            toks_vec(skips, f_skip()) + toks_batch(proof@.regular),
            toks_batch(proof@.univariate_eval_check),
        );
    }
}

fn encode_piop(writer: &mut BlobWriter, piop: &PiopProof, offsets: &mut ProofBlobOffsets)
    ensures
        emits(old(writer)@, final(writer)@, *old(offsets), *final(offsets), toks_piop(piop@)),
{
    let ghost w0 = writer@;
    let ghost o0 = *offsets;
    encode_fractional_sum(writer, &piop.fractional_sum, offsets);
    let ghost w1 = writer@;
    let ghost o1 = *offsets;
    encode_air_proof(writer, &piop.air, offsets);
    proof {
        lemma_emits_seq(
            w0,
            w1,
            writer@,
            o0,
            o1,
            *offsets,
            toks_fractional_sum(piop@.fractional_sum),
            toks_air(piop@.air),
        );
    }
}

/// Writes a length-prefixed list of base-field values.
fn encode_vals(writer: &mut BlobWriter, values: &Vec<u32>, offsets: &ProofBlobOffsets)
    ensures
        emits(old(writer)@, final(writer)@, *offsets, *offsets, toks_vec(values@, f_val())),
{
    let ghost xs = values@;
    let ghost w0 = writer@;
    encode_list_len(writer, values.len(), offsets);
    proof {
        lemma_rep_take0(t_len(xs.len()), xs, f_val());
    }
    let mut i: usize = 0;
    while i < values.len()
        invariant
            i <= values@.len(),
            xs == values@,
            emits(w0, writer@, *offsets, *offsets, t_len(xs.len()) + toks_rep(xs.take(i as int), f_val())),
        decreases values@.len() - i,
    {
        let ghost w1 = writer@;
        writer.write_val(values[i]);
        proof {
            lemma_emits_plain(w1, writer@, *offsets, crate::bytes::be32(values@[i as int]));
            lemma_emits_rep_step(w0, w1, writer@, *offsets, *offsets, *offsets, t_len(xs.len()), xs, i as int, f_val());
        }
        i = i + 1;
    }
    proof {
        lemma_rep_take_all(xs);
    }
}

/// Writes a length-prefixed list of extension-field elements of the given kind.
fn encode_challenges(
    writer: &mut BlobWriter,
    values: &Vec<Challenge>,
    ood: bool,
    offsets: &mut ProofBlobOffsets,
)
    ensures
        emits(
            old(writer)@,
            final(writer)@,
            *old(offsets),
            *final(offsets),
            toks_vec(values@, f_chal(if ood { Mark::OodAnswer } else { Mark::Plain })),
        ),
{
    let ghost m = if ood { Mark::OodAnswer } else { Mark::Plain };
    let ghost xs = values@;
    let ghost w0 = writer@;
    let ghost o0 = *offsets;
    encode_list_len(writer, values.len(), offsets);
    proof {
        lemma_rep_take0(t_len(xs.len()), xs, f_chal(m));
    }
    let mut i: usize = 0;
    while i < values.len()
        invariant
            i <= values@.len(),
            xs == values@,
            m == (if ood { Mark::OodAnswer } else { Mark::Plain }),
            emits(w0, writer@, o0, *offsets, t_len(xs.len()) + toks_rep(xs.take(i as int), f_chal(m))),
        decreases values@.len() - i,
    {
        let ghost w1 = writer@;
        let ghost o1 = *offsets;
        if ood {
            writer.write_challenge_marked(values[i], &mut offsets.first_initial_ood_answer_offset);
        } else {
            writer.write_challenge(values[i]);
        }
        proof {
            lemma_emits_tok(w1, writer@, o1, m, challenge_bytes(values@[i as int]));
            lemma_emits_rep_step(w0, w1, writer@, o0, o1, *offsets, t_len(xs.len()), xs, i as int, f_chal(m));
        }
        i = i + 1;
    }
    proof {
        lemma_rep_take_all(xs);
    }
}

fn encode_whir_sumcheck(writer: &mut BlobWriter, sumcheck: &SumcheckData, offsets: &mut ProofBlobOffsets)
    ensures
        emits(old(writer)@, final(writer)@, *old(offsets), *final(offsets), toks_sumcheck(sumcheck@)),
{
    let ghost xs = sumcheck@.polynomial_evaluations;
    let ghost w0 = writer@;
    let ghost o0 = *offsets;
    encode_list_len(writer, sumcheck.polynomial_evaluations.len(), offsets);
    proof {
        lemma_rep_take0(t_len(xs.len()), xs, f_pair());
    }
    let mut i: usize = 0;
    while i < sumcheck.polynomial_evaluations.len()
        invariant
            i <= sumcheck.polynomial_evaluations@.len(),
            xs == sumcheck@.polynomial_evaluations,
            emits(w0, writer@, o0, *offsets, t_len(xs.len()) + toks_rep(xs.take(i as int), f_pair())),
        decreases sumcheck.polynomial_evaluations@.len() - i,
    {
        let ghost w1 = writer@;
        let ghost o1 = *offsets;
        let coeffs = sumcheck.polynomial_evaluations[i];
        writer.write_challenge_marked(coeffs[0], &mut offsets.first_sumcheck_coeff_offset);
        let ghost w2 = writer@;
        let ghost o2 = *offsets;
        writer.write_challenge_marked(coeffs[1], &mut offsets.first_sumcheck_coeff_offset);
        proof {
            assert(xs[i as int] == pair_view(coeffs));
            lemma_emits_tok(w1, w2, o1, Mark::SumcheckCoeff, challenge_bytes(coeffs@[0]));
            lemma_emits_tok(w2, writer@, o2, Mark::SumcheckCoeff, challenge_bytes(coeffs@[1]));
            lemma_emits_seq(
                w1,
                w2,
                writer@,
                o1,
                o2,
                *offsets,
                t_chal(Mark::SumcheckCoeff, coeffs@[0]),
                t_chal(Mark::SumcheckCoeff, coeffs@[1]),
            );
            lemma_emits_rep_step(w0, w1, writer@, o0, o1, *offsets, t_len(xs.len()), xs, i as int, f_pair());
        }
        i = i + 1;
    }
    proof {
        lemma_rep_take_all(xs);
    }
    let ghost w3 = writer@;
    let ghost o3 = *offsets;
    encode_vals(writer, &sumcheck.pow_witnesses, offsets);
    proof {
        lemma_emits_seq(
            w0,
            w3,
            writer@,
            o0,
            o3,
            *offsets,
            toks_vec(xs, f_pair()),
            toks_vec(sumcheck@.pow_witnesses, f_val()),
        );
    }
}

/// Writes a length-prefixed list of Merkle siblings, recording the first one.
fn encode_siblings(writer: &mut BlobWriter, proof: &Vec<[u64; 4]>, offsets: &mut ProofBlobOffsets)
    ensures
        emits(old(writer)@, final(writer)@, *old(offsets), *final(offsets), toks_vec(digests_view(proof@), f_sibling())),
{
    let ghost xs = digests_view(proof@);
    let ghost w0 = writer@;
    let ghost o0 = *offsets;
    encode_list_len(writer, proof.len(), offsets);
    proof {
        lemma_rep_take0(t_len(xs.len()), xs, f_sibling());
    }
    let mut i: usize = 0;
    while i < proof.len()
        invariant
            i <= proof@.len(),
            xs == digests_view(proof@),
            emits(w0, writer@, o0, *offsets, t_len(xs.len()) + toks_rep(xs.take(i as int), f_sibling())),
        decreases proof@.len() - i,
    {
        let ghost w1 = writer@;
        let ghost o1 = *offsets;
        if offsets.first_merkle_sibling_offset.is_none() {
            offsets.first_merkle_sibling_offset = Some(writer.pos());
        }
        writer.write_digest(&proof[i]);
        proof {
            lemma_emits_tok(w1, writer@, o1, Mark::MerkleSibling, digest_bytes(proof@[i as int]@));
            lemma_emits_rep_step(w0, w1, writer@, o0, o1, *offsets, t_len(xs.len()), xs, i as int, f_sibling());
        }
        i = i + 1;
    }
    proof {
        lemma_rep_take_all(xs);
    }
}

fn encode_query_opening(writer: &mut BlobWriter, query: &QueryOpening, offsets: &mut ProofBlobOffsets)
    ensures
        emits(old(writer)@, final(writer)@, *old(offsets), *final(offsets), toks_query(query@)),
{
    let ghost w0 = writer@;
    let ghost o0 = *offsets;
    match query {
        QueryOpening::Base { values, proof } => {
            writer.write_u8(0);
            let ghost w1 = writer@;
            proof {
                lemma_emits_plain(w0, w1, o0, seq![0u8]);
            }
            encode_vals(writer, values, offsets);
            let ghost w2 = writer@;
            proof {
                lemma_emits_seq(w0, w1, w2, o0, o0, o0, t_u8(0), toks_vec(values@, f_val()));
            }
            encode_siblings(writer, proof, offsets);
            proof {
                lemma_emits_seq(
                    w0,
                    w2,
                    writer@,
                    o0,
                    o0,
                    *offsets,
                    t_u8(0) + toks_vec(values@, f_val()),
                    toks_vec(digests_view(proof@), f_sibling()),
                );
            }
        },
        QueryOpening::Extension { values, proof } => {
            writer.write_u8(1);
            let ghost w1 = writer@;
            proof {
                lemma_emits_plain(w0, w1, o0, seq![1u8]);
            }
            encode_challenges(writer, values, false, offsets);
            let ghost w2 = writer@;
            let ghost o2 = *offsets;
            proof {
                lemma_emits_seq(w0, w1, w2, o0, o0, o2, t_u8(1), toks_vec(values@, f_chal(Mark::Plain)));
            }
            encode_siblings(writer, proof, offsets);
            proof {
                lemma_emits_seq(
                    w0,
                    w2,
                    writer@,
                    o0,
                    o2,
                    *offsets,
                    t_u8(1) + toks_vec(values@, f_chal(Mark::Plain)),
                    toks_vec(digests_view(proof@), f_sibling()),
                );
            }
        },
    }
}

/// Writes a length-prefixed list of query openings.
fn encode_queries(writer: &mut BlobWriter, queries: &Vec<QueryOpening>, offsets: &mut ProofBlobOffsets)
    ensures
        emits(old(writer)@, final(writer)@, *old(offsets), *final(offsets), toks_vec(queries_view(queries@), f_query())),
{
    let ghost xs = queries_view(queries@);
    let ghost w0 = writer@;
    let ghost o0 = *offsets;
    encode_list_len(writer, queries.len(), offsets);
    proof {
        lemma_rep_take0(t_len(xs.len()), xs, f_query());
    }
    let mut i: usize = 0;
    while i < queries.len()
        invariant
            i <= queries@.len(),
            xs == queries_view(queries@),
            emits(w0, writer@, o0, *offsets, t_len(xs.len()) + toks_rep(xs.take(i as int), f_query())),
        decreases queries@.len() - i,
    {
        let ghost w1 = writer@;
        let ghost o1 = *offsets;
        encode_query_opening(writer, &queries[i], offsets);
        proof {
            lemma_emits_rep_step(w0, w1, writer@, o0, o1, *offsets, t_len(xs.len()), xs, i as int, f_query());
        }
        i = i + 1;
    }
    proof {
        lemma_rep_take_all(xs);
    }
}

fn encode_whir_round(writer: &mut BlobWriter, round: &WhirRoundProof, offsets: &mut ProofBlobOffsets)
    ensures
        emits(old(writer)@, final(writer)@, *old(offsets), *final(offsets), toks_round(round@)),
{
    let ghost r = round@;
    let ghost w0 = writer@;
    let ghost o0 = *offsets;
    writer.write_digest(&round.commitment);
    let ghost w1 = writer@;
    proof {
        lemma_emits_plain(w0, w1, o0, digest_bytes(r.commitment));
    }
    encode_challenges(writer, &round.ood_answers, true, offsets);
    let ghost w2 = writer@;
    let ghost o2 = *offsets;
    proof {
        lemma_emits_seq(w0, w1, w2, o0, o0, o2, t_digest(Mark::Plain, r.commitment), toks_vec(r.ood_answers, f_chal(Mark::OodAnswer)));
    }
    writer.write_val(round.pow_witness);
    let ghost w3 = writer@;
    proof {
        lemma_emits_plain(w2, w3, o2, crate::bytes::be32(r.pow_witness));
        lemma_emits_seq(
            w0,
            w2,
            w3,
            o0,
            o2,
            o2,
            t_digest(Mark::Plain, r.commitment) + toks_vec(r.ood_answers, f_chal(Mark::OodAnswer)),
            t_val(r.pow_witness),
        );
    }
    encode_queries(writer, &round.queries, offsets);
    let ghost w4 = writer@;
    let ghost o4 = *offsets;
    proof {
        lemma_emits_seq(
            w0,
            w3,
            w4,
            o0,
            o2,
            o4,
            t_digest(Mark::Plain, r.commitment) + toks_vec(r.ood_answers, f_chal(Mark::OodAnswer))
                + t_val(r.pow_witness),
            toks_vec(r.queries, f_query()),
        );
    }
    encode_whir_sumcheck(writer, &round.sumcheck, offsets);
    proof {
        lemma_emits_seq(
            w0,
            w4,
            writer@,
            o0,
            o4,
            *offsets,
            t_digest(Mark::Plain, r.commitment) + toks_vec(r.ood_answers, f_chal(Mark::OodAnswer))
                + t_val(r.pow_witness) + toks_vec(r.queries, f_query()),
            toks_sumcheck(r.sumcheck),
        );
    }
}

fn encode_final_poly(writer: &mut BlobWriter, final_poly: &Vec<Challenge>, offsets: &mut ProofBlobOffsets)
    ensures
        emits(old(writer)@, final(writer)@, *old(offsets), *final(offsets), toks_final_poly(final_poly@)),
{
    let ghost w0 = writer@;
    let ghost o0 = *offsets;
    let ghost marker = if final_poly@.len() > 0 {
        crate::blob::tok(Mark::FinalPoly, Seq::<u8>::empty())
    } else {
        Seq::<Tok>::empty()
    };
    if offsets.first_final_poly_offset.is_none() && !final_poly.is_empty() {
        offsets.first_final_poly_offset = Some(writer.pos());
    }
    proof {
        assert(w0 =~= w0 + Seq::<u8>::empty());
        if final_poly@.len() > 0 {
            lemma_emits_tok(w0, w0, o0, Mark::FinalPoly, Seq::<u8>::empty());
        } else {
            crate::blob::lemma_emits_empty(w0, o0);
        }
    }
    let ghost o1 = *offsets;
    encode_challenges(writer, final_poly, false, offsets);
    proof {
        lemma_emits_seq(w0, w0, writer@, o0, o1, *offsets, marker, toks_vec(final_poly@, f_chal(Mark::Plain)));
    }
}

fn encode_rounds(writer: &mut BlobWriter, rounds: &Vec<WhirRoundProof>, offsets: &mut ProofBlobOffsets)
    ensures
        emits(
            old(writer)@,
            final(writer)@,
            *old(offsets),
            *final(offsets),
            toks_vec(rounds@.map_values(|r: WhirRoundProof| r@), f_round()),
        ),
{
    let ghost xs = rounds@.map_values(|r: WhirRoundProof| r@);
    let ghost w0 = writer@;
    let ghost o0 = *offsets;
    encode_list_len(writer, rounds.len(), offsets);
    proof {
        lemma_rep_take0(t_len(xs.len()), xs, f_round());
    }
    let mut i: usize = 0;
    while i < rounds.len()
        invariant
            i <= rounds@.len(),
            xs == rounds@.map_values(|r: WhirRoundProof| r@),
            emits(w0, writer@, o0, *offsets, t_len(xs.len()) + toks_rep(xs.take(i as int), f_round())),
        decreases rounds@.len() - i,
    {
        let ghost w1 = writer@;
        let ghost o1 = *offsets;
        encode_whir_round(writer, &rounds[i], offsets);
        proof {
            lemma_emits_rep_step(w0, w1, writer@, o0, o1, *offsets, t_len(xs.len()), xs, i as int, f_round());
        }
        i = i + 1;
    }
    proof {
        lemma_rep_take_all(xs);
    }
}

fn encode_whir_proof(writer: &mut BlobWriter, proof: &WhirProof, offsets: &mut ProofBlobOffsets)
    ensures
        emits(old(writer)@, final(writer)@, *old(offsets), *final(offsets), toks_whir(proof@)),
{
    let ghost p = proof@;
    let ghost w0 = writer@;
    let ghost o0 = *offsets;
    writer.write_digest(&proof.initial_commitment);
    let ghost mut acc = t_digest(Mark::Plain, p.initial_commitment);
    proof {
        lemma_emits_plain(w0, writer@, o0, digest_bytes(p.initial_commitment));
    }
    let ghost w1 = writer@;
    let ghost o1 = *offsets;
    encode_challenges(writer, &proof.initial_ood_answers, true, offsets);
    proof {
        lemma_emits_seq(w0, w1, writer@, o0, o1, *offsets, acc, toks_vec(p.initial_ood_answers, f_chal(Mark::OodAnswer)));
        acc = acc + toks_vec(p.initial_ood_answers, f_chal(Mark::OodAnswer));
    }
    let ghost w1 = writer@;
    let ghost o1 = *offsets;
    encode_whir_sumcheck(writer, &proof.initial_sumcheck, offsets);
    proof {
        lemma_emits_seq(w0, w1, writer@, o0, o1, *offsets, acc, toks_sumcheck(p.initial_sumcheck));
        acc = acc + toks_sumcheck(p.initial_sumcheck);
    }
    let ghost w1 = writer@;
    let ghost o1 = *offsets;
    encode_rounds(writer, &proof.rounds, offsets);
    proof {
        lemma_emits_seq(w0, w1, writer@, o0, o1, *offsets, acc, toks_vec(p.rounds, f_round()));
        acc = acc + toks_vec(p.rounds, f_round());
    }
    let ghost w1 = writer@;
    let ghost o1 = *offsets;
    let present = writer.write_option(&proof.final_poly);
    let ghost w2 = writer@;
    proof {
        lemma_emits_plain(w1, w2, o1, seq![if present { 1u8 } else { 0u8 }]);
    }
    match &proof.final_poly {
        Some(final_poly) => {
            encode_final_poly(writer, final_poly, offsets);
            proof {
                lemma_emits_seq(w1, w2, writer@, o1, o1, *offsets, t_u8(1), toks_final_poly(final_poly@));
            }
        },
        None => {},
    }
    proof {
        assert(toks_option(p.final_poly, f_final_poly()) == (match p.final_poly {
            None => t_u8(0),
            Some(x) => t_u8(1) + toks_final_poly(x),
        }));
        lemma_emits_seq(w0, w1, writer@, o0, o1, *offsets, acc, toks_option(p.final_poly, f_final_poly()));
        acc = acc + toks_option(p.final_poly, f_final_poly());
    }
    let ghost w1 = writer@;
    let ghost o1 = *offsets;
    writer.write_val(proof.final_pow_witness);
    proof {
        lemma_emits_plain(w1, writer@, o1, crate::bytes::be32(p.final_pow_witness));
        lemma_emits_seq(w0, w1, writer@, o0, o1, *offsets, acc, t_val(p.final_pow_witness));
        acc = acc + t_val(p.final_pow_witness);
    }
    let ghost w1 = writer@;
    let ghost o1 = *offsets;
    encode_queries(writer, &proof.final_queries, offsets);
    proof {
        lemma_emits_seq(w0, w1, writer@, o0, o1, *offsets, acc, toks_vec(p.final_queries, f_query()));
        acc = acc + toks_vec(p.final_queries, f_query());
    }
    let ghost w1 = writer@;
    let ghost o1 = *offsets;
    let present = writer.write_option(&proof.final_sumcheck);
    let ghost w2 = writer@;
    proof {
        lemma_emits_plain(w1, w2, o1, seq![if present { 1u8 } else { 0u8 }]);
    }
    match &proof.final_sumcheck {
        Some(sumcheck) => {
            encode_whir_sumcheck(writer, sumcheck, offsets);
            proof {
                lemma_emits_seq(w1, w2, writer@, o1, o1, *offsets, t_u8(1), toks_sumcheck(sumcheck@));
            }
        },
        None => {},
    }
    proof {
        assert(toks_option(p.final_sumcheck, f_sumcheck()) == (match p.final_sumcheck {
            None => t_u8(0),
            Some(x) => t_u8(1) + toks_sumcheck(x),
        }));
        lemma_emits_seq(w0, w1, writer@, o0, o1, *offsets, acc, toks_option(p.final_sumcheck, f_sumcheck()));
        acc = acc + toks_option(p.final_sumcheck, f_sumcheck());
        assert(acc == toks_whir(p));
    }
}

/// Magic bytes opening every proof blob: `b"HPK1"`.
pub const PROOF_BLOB_MAGIC: [u8; 4] = [0x48u8, 0x50u8, 0x4bu8, 0x31u8];

fn encode_public_inputs(writer: &mut BlobWriter, public_inputs: &[Vec<u32>], offsets: &ProofBlobOffsets)
    ensures
        emits(old(writer)@, final(writer)@, *offsets, *offsets, toks_vec(vals_view(public_inputs@), f_vals())),
{
    let ghost xs = vals_view(public_inputs@);
    let ghost w0 = writer@;
    encode_list_len(writer, public_inputs.len(), offsets);
    proof {
        lemma_rep_take0(t_len(xs.len()), xs, f_vals());
    }
    let mut i: usize = 0;
    while i < public_inputs.len()
        invariant
            i <= public_inputs@.len(),
            xs == vals_view(public_inputs@),
            emits(w0, writer@, *offsets, *offsets, t_len(xs.len()) + toks_rep(xs.take(i as int), f_vals())),
        decreases public_inputs@.len() - i,
    {
        let ghost w1 = writer@;
        encode_vals(writer, &public_inputs[i], offsets);
        proof {
            lemma_emits_rep_step(w0, w1, writer@, *offsets, *offsets, *offsets, t_len(xs.len()), xs, i as int, f_vals());
        }
        i = i + 1;
    }
    proof {
        lemma_rep_take_all(xs);
    }
}

fn encode_log_bs(writer: &mut BlobWriter, log_bs: &Vec<usize>, offsets: &ProofBlobOffsets)
    ensures
        emits(old(writer)@, final(writer)@, *offsets, *offsets, toks_vec(log_bs@, f_len())),
{
    let ghost xs = log_bs@;
    let ghost w0 = writer@;
    encode_list_len(writer, log_bs.len(), offsets);
    proof {
        lemma_rep_take0(t_len(xs.len()), xs, f_len());
    }
    let mut i: usize = 0;
    while i < log_bs.len()
        invariant
            i <= log_bs@.len(),
            xs == log_bs@,
            emits(w0, writer@, *offsets, *offsets, t_len(xs.len()) + toks_rep(xs.take(i as int), f_len())),
        decreases log_bs@.len() - i,
    {
        let ghost w1 = writer@;
        encode_list_len(writer, log_bs[i], offsets);
        proof {
            lemma_emits_rep_step(w0, w1, writer@, *offsets, *offsets, *offsets, t_len(xs.len()), xs, i as int, f_len());
        }
        i = i + 1;
    }
    proof {
        lemma_rep_take_all(xs);
    }
}

fn encode_pcs(writer: &mut BlobWriter, pcs: &Vec<WhirProof>, offsets: &mut ProofBlobOffsets)
    ensures
        emits(
            old(writer)@,
            final(writer)@,
            *old(offsets),
            *final(offsets),
            toks_vec(pcs@.map_values(|w: WhirProof| w@), f_whir()),
        ),
{
    let ghost xs = pcs@.map_values(|w: WhirProof| w@);
    let ghost w0 = writer@;
    let ghost o0 = *offsets;
    encode_list_len(writer, pcs.len(), offsets);
    proof {
        lemma_rep_take0(t_len(xs.len()), xs, f_whir());
    }
    let mut i: usize = 0;
    while i < pcs.len()
        invariant
            i <= pcs@.len(),
            xs == pcs@.map_values(|w: WhirProof| w@),
            emits(w0, writer@, o0, *offsets, t_len(xs.len()) + toks_rep(xs.take(i as int), f_whir())),
        decreases pcs@.len() - i,
    {
        let ghost w1 = writer@;
        let ghost o1 = *offsets;
        encode_whir_proof(writer, &pcs[i], offsets);
        proof {
            lemma_emits_rep_step(w0, w1, writer@, o0, o1, *offsets, t_len(xs.len()), xs, i as int, f_whir());
        }
        i = i + 1;
    }
    proof {
        lemma_rep_take_all(xs);
    }
}

/// Encodes public inputs and a proof as a proof blob, and reports where representative fields
/// start: the commitment, and the first OOD answer, sumcheck coefficient, Merkle sibling and
/// final polynomial.
pub fn encode_proof_blob_v1_with_offsets(
    public_inputs: &[Vec<u32>],
    proof: &HyperPlonkProof,
) -> (r: (Vec<u8>, ProofBlobOffsets))
    ensures
        r.0@ == blob_bytes(vals_view(public_inputs@), proof@),
        r.1 == offsets_after(ProofBlobOffsets::none(), 0, toks_blob(vals_view(public_inputs@), proof@)),
{
    let ghost pi = vals_view(public_inputs@);
    let ghost p = proof@;
    let mut writer = BlobWriter::new();
    let mut offsets = ProofBlobOffsets::default();
    let ghost w0 = writer@;
    let ghost o0 = offsets;
    writer.write_bytes(PROOF_BLOB_MAGIC.as_slice());
    proof {
        assert(PROOF_BLOB_MAGIC@ =~= blob_magic());
        lemma_emits_plain(w0, writer@, o0, blob_magic());
    }
    let ghost mut acc = crate::blob::plain(blob_magic());
    let ghost w1 = writer@;
    writer.write_u8(PROOF_BLOB_VERSION);
    proof {
        lemma_emits_plain(w1, writer@, o0, seq![PROOF_BLOB_VERSION]);
        lemma_emits_seq(w0, w1, writer@, o0, o0, o0, acc, t_u8(PROOF_BLOB_VERSION));
        acc = acc + t_u8(PROOF_BLOB_VERSION);
    }
    let ghost w1 = writer@;
    encode_public_inputs(&mut writer, public_inputs, &offsets);
    proof {
        lemma_emits_seq(w0, w1, writer@, o0, o0, o0, acc, toks_vec(pi, f_vals()));
        acc = acc + toks_vec(pi, f_vals());
    }
    let ghost w1 = writer@;
    encode_log_bs(&mut writer, &proof.log_bs, &offsets);
    proof {
        lemma_emits_seq(w0, w1, writer@, o0, o0, o0, acc, toks_vec(p.log_bs, f_len()));
        acc = acc + toks_vec(p.log_bs, f_len());
    }
    let ghost w1 = writer@;
    if offsets.commitment_offset.is_none() {
        offsets.commitment_offset = Some(writer.pos());
    }
    writer.write_digest(&proof.commitment);
    proof {
        lemma_emits_tok(w1, writer@, o0, Mark::Commitment, digest_bytes(p.commitment));
        lemma_emits_seq(w0, w1, writer@, o0, o0, offsets, acc, t_digest(Mark::Commitment, p.commitment));
        acc = acc + t_digest(Mark::Commitment, p.commitment);
    }
    let ghost w1 = writer@;
    let ghost o1 = offsets;
    encode_piop(&mut writer, &proof.piop, &mut offsets);
    proof {
        lemma_emits_seq(w0, w1, writer@, o0, o1, offsets, acc, toks_piop(p.piop));
        acc = acc + toks_piop(p.piop);
    }
    let ghost w1 = writer@;
    let ghost o1 = offsets;
    encode_pcs(&mut writer, &proof.pcs, &mut offsets);
    proof {
        lemma_emits_seq(w0, w1, writer@, o0, o1, offsets, acc, toks_vec(p.pcs, f_whir()));
        acc = acc + toks_vec(p.pcs, f_whir());
        assert(acc == toks_blob(pi, p));
        assert(w0 + flat(acc) =~= flat(acc));
    }
    (writer.finish(), offsets)
}

/// Encodes public inputs and a proof as a proof blob.
pub fn encode_proof_blob_v1(public_inputs: &[Vec<u32>], proof: &HyperPlonkProof) -> (bytes: Vec<u8>)
    ensures
        bytes@ == blob_bytes(vals_view(public_inputs@), proof@),
{
    encode_proof_blob_v1_with_offsets(public_inputs, proof).0
}

} // verus!
