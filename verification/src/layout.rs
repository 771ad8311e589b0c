//! The byte layout of an `HPK1` proof blob, written out directly in bytes: big-endian limbs
//! and words, varuint lengths before lists, and every section's parts in their fixed order.
//! The laws here say that the encoder writes exactly this layout and that the decoder reads
//! it back, section by section and for the whole blob.
use crate::blob::{flat, lemma_flat_append, plain, varuint, DecodeError, Mark, Tok};
use crate::bytes::{be32, be64};
use crate::field::Challenge;
use crate::format::{
    blob_bytes, f_batch, f_chal, f_final_poly, f_fraction, f_fractions, f_len, f_pair, f_query,
    f_round, f_sc_poly, f_sibling, f_skip, f_sumcheck, f_val, f_vals, f_whir, t_len, toks_air,
    toks_option, toks_rep, toks_vec,
};
use crate::model::{
    Fraction, SpecAir, SpecBatchSumcheck, SpecBlob, SpecFractionalSum, SpecPiop, SpecProof,
    SpecQuery, SpecRound, SpecSkip, SpecSumcheck, SpecWhir,
};
use crate::roundtrip::lemma_flat_tok;
use vstd::prelude::*;

verus! {

// ---------------------------------------------------------------------------------------------
// The layout.
// ---------------------------------------------------------------------------------------------

/// An extension-field element: its four limbs in order, each as four big-endian bytes.
pub open spec fn chal_bytes(c: Challenge) -> Seq<u8> {
    be32(c.c0) + be32(c.c1) + be32(c.c2) + be32(c.c3)
}

/// A digest: its four words in order, each as eight big-endian bytes.
pub open spec fn word_bytes(d: Seq<u64>) -> Seq<u8> {
    be64(d[0]) + be64(d[1]) + be64(d[2]) + be64(d[3])
}

/// The bytes of each item of `xs`, one after another.
pub open spec fn cat_map<T>(xs: Seq<T>, h: spec_fn(T) -> Seq<u8>) -> Seq<u8>
    decreases xs.len(),
{
    if xs.len() == 0 {
        seq![]
    } else {
        cat_map(xs.drop_last(), h) + h(xs.last())
    }
}

/// A list: its length as a varuint, then its items.
pub open spec fn list_bytes<T>(xs: Seq<T>, h: spec_fn(T) -> Seq<u8>) -> Seq<u8> {
    varuint(xs.len() as u64) + cat_map(xs, h)
}

/// An optional section: byte `0`, or byte `1` then the section.
pub open spec fn option_bytes<T>(o: Option<T>, h: spec_fn(T) -> Seq<u8>) -> Seq<u8> {
    match o {
        None => seq![0u8],
        Some(x) => seq![1u8] + h(x),
    }
}

pub open spec fn h_val() -> spec_fn(u32) -> Seq<u8> {
    |x: u32| be32(x)
}

pub open spec fn h_chal() -> spec_fn(Challenge) -> Seq<u8> {
    |c: Challenge| chal_bytes(c)
}

pub open spec fn h_word() -> spec_fn(Seq<u64>) -> Seq<u8> {
    |d: Seq<u64>| word_bytes(d)
}

pub open spec fn h_len() -> spec_fn(usize) -> Seq<u8> {
    |n: usize| varuint(n as u64)
}

/// A list of base-field values.
pub open spec fn vals_bytes(v: Seq<u32>) -> Seq<u8> {
    list_bytes(v, h_val())
}

pub open spec fn h_vals() -> spec_fn(Seq<u32>) -> Seq<u8> {
    |v: Seq<u32>| vals_bytes(v)
}

/// A list of extension-field elements.
pub open spec fn chals_bytes(v: Seq<Challenge>) -> Seq<u8> {
    list_bytes(v, h_chal())
}

pub open spec fn h_chals() -> spec_fn(Seq<Challenge>) -> Seq<u8> {
    |v: Seq<Challenge>| chals_bytes(v)
}

/// A WHIR sumcheck evaluation pair `[e0, e1]`: `e0`, then `e1`.
pub open spec fn pair_bytes(e: (Challenge, Challenge)) -> Seq<u8> {
    chal_bytes(e.0) + chal_bytes(e.1)
}

pub open spec fn h_pair() -> spec_fn((Challenge, Challenge)) -> Seq<u8> {
    |e: (Challenge, Challenge)| pair_bytes(e)
}

/// A WHIR sumcheck: the list of evaluation pairs, then the list of PoW witnesses.
pub open spec fn sumcheck_bytes(s: SpecSumcheck) -> Seq<u8> {
    list_bytes(s.polynomial_evaluations, h_pair()) + vals_bytes(s.pow_witnesses)
}

pub open spec fn h_sumcheck() -> spec_fn(SpecSumcheck) -> Seq<u8> {
    |s: SpecSumcheck| sumcheck_bytes(s)
}

/// A fraction: numerator, then denominator.
pub open spec fn fraction_bytes(f: Fraction) -> Seq<u8> {
    chal_bytes(f.numer) + chal_bytes(f.denom)
}

pub open spec fn h_fraction() -> spec_fn(Fraction) -> Seq<u8> {
    |f: Fraction| fraction_bytes(f)
}

pub open spec fn h_fractions() -> spec_fn(Seq<Fraction>) -> Seq<u8> {
    |v: Seq<Fraction>| list_bytes(v, h_fraction())
}

/// A batched sumcheck: the list of compressed round polynomials, then the list of
/// evaluation sets, each a list of extension-field elements.
pub open spec fn batch_bytes(x: SpecBatchSumcheck) -> Seq<u8> {
    list_bytes(x.compressed_round_polys, h_chals()) + list_bytes(x.evals, h_chals())
}

pub open spec fn h_batch() -> spec_fn(SpecBatchSumcheck) -> Seq<u8> {
    |x: SpecBatchSumcheck| batch_bytes(x)
}

/// The fractional-sum section: the list of sums, then the list of layer sumchecks.
pub open spec fn fractional_sum_bytes(x: SpecFractionalSum) -> Seq<u8> {
    list_bytes(x.sums, h_fractions()) + list_bytes(x.layers, h_batch())
}

/// A univariate skip: its number of rounds as a varuint, then the zero-check round
/// polynomial, then the evaluation-check round polynomial.
pub open spec fn skip_bytes(s: SpecSkip) -> Seq<u8> {
    varuint(s.skip_rounds as u64) + chals_bytes(s.zero_check_round_poly) + chals_bytes(
        s.eval_check_round_poly,
    )
}

pub open spec fn h_skip() -> spec_fn(SpecSkip) -> Seq<u8> {
    |s: SpecSkip| skip_bytes(s)
}

/// The AIR section: the list of univariate skips, then the regular batched sumcheck, then
/// the univariate evaluation-check batched sumcheck.
pub open spec fn air_bytes(a: SpecAir) -> Seq<u8> {
    list_bytes(a.univariate_skips, h_skip()) + batch_bytes(a.regular) + batch_bytes(
        a.univariate_eval_check,
    )
}

/// The PIOP section: fractional sum, then AIR.
pub open spec fn piop_bytes(p: SpecPiop) -> Seq<u8> {
    fractional_sum_bytes(p.fractional_sum) + air_bytes(p.air)
}

/// A query opening: tag `0`, base values and Merkle siblings, or tag `1`, extension values
/// and Merkle siblings.
pub open spec fn query_bytes(q: SpecQuery) -> Seq<u8> {
    match q {
        SpecQuery::Base { values, proof } => seq![0u8] + vals_bytes(values) + list_bytes(
            proof,
            h_word(),
        ),
        SpecQuery::Extension { values, proof } => seq![1u8] + chals_bytes(values) + list_bytes(
            proof,
            h_word(),
        ),
    }
}

pub open spec fn h_query() -> spec_fn(SpecQuery) -> Seq<u8> {
    |q: SpecQuery| query_bytes(q)
}

/// A WHIR round: commitment, OOD answers, PoW witness, queries, sumcheck.
pub open spec fn round_bytes(r: SpecRound) -> Seq<u8> {
    word_bytes(r.commitment) + chals_bytes(r.ood_answers) + be32(r.pow_witness) + list_bytes(
        r.queries,
        h_query(),
    ) + sumcheck_bytes(r.sumcheck)
}

pub open spec fn h_round() -> spec_fn(SpecRound) -> Seq<u8> {
    |r: SpecRound| round_bytes(r)
}

/// A WHIR proof: initial commitment, initial OOD answers, initial sumcheck, rounds, optional
/// final polynomial, final PoW witness, final queries, optional final sumcheck.
pub open spec fn whir_bytes(w: SpecWhir) -> Seq<u8> {
    word_bytes(w.initial_commitment) + chals_bytes(w.initial_ood_answers) + sumcheck_bytes(
        w.initial_sumcheck,
    ) + list_bytes(w.rounds, h_round()) + option_bytes(w.final_poly, h_chals()) + be32(
        w.final_pow_witness,
    ) + list_bytes(w.final_queries, h_query()) + option_bytes(w.final_sumcheck, h_sumcheck())
}

pub open spec fn h_whir() -> spec_fn(SpecWhir) -> Seq<u8> {
    |w: SpecWhir| whir_bytes(w)
}

/// A whole blob: `"HPK1"`, version `1`, public inputs, `log_bs`, commitment, PIOP, WHIR
/// proofs.
pub open spec fn blob_layout(public_inputs: Seq<Seq<u32>>, p: SpecProof) -> Seq<u8> {
    seq![0x48u8, 0x50u8, 0x4bu8, 0x31u8] + seq![1u8] + list_bytes(public_inputs, h_vals())
        + list_bytes(p.log_bs, h_len()) + word_bytes(p.commitment) + piop_bytes(p.piop)
        + list_bytes(p.pcs, h_whir())
}

// ---------------------------------------------------------------------------------------------
// The encoder writes the layout.
// ---------------------------------------------------------------------------------------------

/// The fields `g` writes for any item are the bytes `h` gives it.
pub open spec fn lays_out<T>(g: spec_fn(T) -> Seq<Tok>, h: spec_fn(T) -> Seq<u8>) -> bool {
    forall|x: T| #[trigger] flat(g(x)) == h(x)
}

proof fn lemma_rep_layout<T>(xs: Seq<T>, g: spec_fn(T) -> Seq<Tok>, h: spec_fn(T) -> Seq<u8>)
    requires
        lays_out(g, h),
    ensures
        flat(toks_rep(xs, g)) == cat_map(xs, h),
    decreases xs.len(),
{
    reveal(toks_rep);
    if xs.len() == 0 {
        crate::blob::lemma_flat_empty();
    } else {
        lemma_rep_layout(xs.drop_last(), g, h);
        lemma_flat_append(toks_rep(xs.drop_last(), g), g(xs.last()));
        assert(flat(g(xs.last())) == h(xs.last()));
    }
}

/// A length-prefixed list is written as its varuint length, then its items.
proof fn lemma_vec_layout<T>(xs: Seq<T>, g: spec_fn(T) -> Seq<Tok>, h: spec_fn(T) -> Seq<u8>)
    requires
        lays_out(g, h),
    ensures
        flat(toks_vec(xs, g)) == list_bytes(xs, h),
{
    lemma_rep_layout(xs, g, h);
    lemma_flat_append(t_len(xs.len()), toks_rep(xs, g));
    lemma_flat_tok(Mark::Plain, varuint((xs.len() as nat) as u64));
}

proof fn lemma_option_layout<T>(o: Option<T>, g: spec_fn(T) -> Seq<Tok>, h: spec_fn(T) -> Seq<u8>)
    requires
        lays_out(g, h),
    ensures
        flat(toks_option(o, g)) == option_bytes(o, h),
{
    match o {
        None => {
            lemma_flat_tok(Mark::Plain, seq![0u8]);
        },
        Some(x) => {
            lemma_flat_tok(Mark::Plain, seq![1u8]);
            lemma_flat_append(crate::format::t_u8(1), g(x));
            assert(flat(g(x)) == h(x));
        },
    }
}

proof fn lemma_val_layout()
    ensures
        lays_out(f_val(), h_val()),
{
    assert forall|x: u32| #[trigger] flat(f_val()(x)) == h_val()(x) by {
        lemma_flat_tok(Mark::Plain, be32(x));
    }
}

proof fn lemma_chal_layout(m: Mark)
    ensures
        lays_out(f_chal(m), h_chal()),
{
    assert forall|c: Challenge| #[trigger] flat(f_chal(m)(c)) == h_chal()(c) by {
        lemma_flat_tok(m, crate::blob::challenge_bytes(c));
    }
}

proof fn lemma_sibling_layout()
    ensures
        lays_out(f_sibling(), h_word()),
{
    assert forall|d: Seq<u64>| #[trigger] flat(f_sibling()(d)) == h_word()(d) by {
        lemma_flat_tok(Mark::MerkleSibling, crate::keccak::digest_bytes(d));
    }
}

proof fn lemma_len_layout()
    ensures
        lays_out(f_len(), h_len()),
{
    assert forall|n: usize| #[trigger] flat(f_len()(n)) == h_len()(n) by {
        lemma_flat_tok(Mark::Plain, varuint((n as nat) as u64));
        assert((n as nat) as u64 == n as u64);
    }
}

proof fn lemma_vals_layout()
    ensures
        lays_out(f_vals(), h_vals()),
{
    lemma_val_layout();
    assert forall|v: Seq<u32>| #[trigger] flat(f_vals()(v)) == h_vals()(v) by {
        lemma_vec_layout(v, f_val(), h_val());
    }
}

proof fn lemma_chals_layout(m: Mark)
    ensures
        forall|v: Seq<Challenge>| #[trigger] flat(toks_vec(v, f_chal(m))) == chals_bytes(v),
{
    lemma_chal_layout(m);
    assert forall|v: Seq<Challenge>| #[trigger] flat(toks_vec(v, f_chal(m))) == chals_bytes(v) by {
        lemma_vec_layout(v, f_chal(m), h_chal());
    }
}

proof fn lemma_sc_poly_layout()
    ensures
        lays_out(f_sc_poly(), h_chals()),
{
    lemma_chals_layout(Mark::SumcheckCoeff);
    assert forall|v: Seq<Challenge>| #[trigger] flat(f_sc_poly()(v)) == h_chals()(v) by {
        assert(flat(toks_vec(v, f_chal(Mark::SumcheckCoeff))) == chals_bytes(v));
    }
}

/// Each WHIR sumcheck evaluation pair `[e0, e1]` is written as the bytes of `e0` followed by
/// those of `e1`.
pub proof fn lemma_pair_layout(e: (Challenge, Challenge))
    ensures
        flat(f_pair()(e)) == chal_bytes(e.0) + chal_bytes(e.1),
{
    lemma_chal_layout(Mark::SumcheckCoeff);
    lemma_flat_append(f_chal(Mark::SumcheckCoeff)(e.0), f_chal(Mark::SumcheckCoeff)(e.1));
    assert(flat(f_chal(Mark::SumcheckCoeff)(e.0)) == h_chal()(e.0));
    assert(flat(f_chal(Mark::SumcheckCoeff)(e.1)) == h_chal()(e.1));
}

proof fn lemma_pairs_layout()
    ensures
        lays_out(f_pair(), h_pair()),
{
    assert forall|e: (Challenge, Challenge)| #[trigger] flat(f_pair()(e)) == h_pair()(e) by {
        lemma_pair_layout(e);
    }
}

/// A WHIR sumcheck is written as its list of evaluation pairs (varuint count, then each
/// pair), followed by its list of PoW witnesses (varuint count, then each as four big-endian
/// bytes).
pub proof fn lemma_sumcheck_layout(s: SpecSumcheck)
    ensures
        flat(f_sumcheck()(s)) == list_bytes(s.polynomial_evaluations, h_pair()) + vals_bytes(
            s.pow_witnesses,
        ),
{
    lemma_pairs_layout();
    lemma_val_layout();
    lemma_vec_layout(s.polynomial_evaluations, f_pair(), h_pair());
    lemma_vec_layout(s.pow_witnesses, f_val(), h_val());
    lemma_flat_append(toks_vec(s.polynomial_evaluations, f_pair()), toks_vec(s.pow_witnesses, f_val()));
}

proof fn lemma_sumchecks_layout()
    ensures
        lays_out(f_sumcheck(), h_sumcheck()),
{
    assert forall|s: SpecSumcheck| #[trigger] flat(f_sumcheck()(s)) == h_sumcheck()(s) by {
        lemma_sumcheck_layout(s);
    }
}

proof fn lemma_fraction_layout()
    ensures
        lays_out(f_fraction(), h_fraction()),
{
    lemma_chal_layout(Mark::SumcheckCoeff);
    assert forall|f: Fraction| #[trigger] flat(f_fraction()(f)) == h_fraction()(f) by {
        let g = f_chal(Mark::SumcheckCoeff);
        lemma_flat_append(g(f.numer), g(f.denom));
        assert(flat(g(f.numer)) == h_chal()(f.numer));
        assert(flat(g(f.denom)) == h_chal()(f.denom));
    }
}

proof fn lemma_fractions_layout()
    ensures
        lays_out(f_fractions(), h_fractions()),
{
    lemma_fraction_layout();
    assert forall|v: Seq<Fraction>| #[trigger] flat(f_fractions()(v)) == h_fractions()(v) by {
        lemma_vec_layout(v, f_fraction(), h_fraction());
    }
}

/// A batched sumcheck is written as its list of compressed round polynomials, followed by
/// its list of evaluation sets; each is a varuint count then the items, and each item a
/// varuint count then its extension-field elements.
pub proof fn lemma_batch_layout(x: SpecBatchSumcheck)
    ensures
        flat(f_batch()(x)) == list_bytes(x.compressed_round_polys, h_chals()) + list_bytes(
            x.evals,
            h_chals(),
        ),
{
    lemma_sc_poly_layout();
    lemma_vec_layout(x.compressed_round_polys, f_sc_poly(), h_chals());
    lemma_vec_layout(x.evals, f_sc_poly(), h_chals());
    lemma_flat_append(toks_vec(x.compressed_round_polys, f_sc_poly()), toks_vec(x.evals, f_sc_poly()));
}

proof fn lemma_batches_layout()
    ensures
        lays_out(f_batch(), h_batch()),
{
    assert forall|x: SpecBatchSumcheck| #[trigger] flat(f_batch()(x)) == h_batch()(x) by {
        lemma_batch_layout(x);
    }
}

/// The fractional-sum section is written as its list of sums, followed by its list of
/// layer sumchecks.
pub proof fn lemma_fractional_sum_layout(x: SpecFractionalSum)
    ensures
        flat(crate::format::toks_fractional_sum(x)) == list_bytes(x.sums, h_fractions())
            + list_bytes(x.layers, h_batch()),
{
    lemma_fractions_layout();
    lemma_batches_layout();
    lemma_vec_layout(x.sums, f_fractions(), h_fractions());
    lemma_vec_layout(x.layers, f_batch(), h_batch());
    lemma_flat_append(toks_vec(x.sums, f_fractions()), toks_vec(x.layers, f_batch()));
}

/// A univariate skip is written as its number of rounds (varuint), then its zero-check
/// round polynomial, then its evaluation-check round polynomial (each a varuint count and the
/// elements).
pub proof fn lemma_skip_layout(s: SpecSkip)
    ensures
        flat(f_skip()(s)) == varuint(s.skip_rounds as u64) + chals_bytes(s.zero_check_round_poly)
            + chals_bytes(s.eval_check_round_poly),
{
    lemma_sc_poly_layout();
    let t1 = t_len(s.skip_rounds as nat);
    let t2 = f_sc_poly()(s.zero_check_round_poly);
    let t3 = f_sc_poly()(s.eval_check_round_poly);
    lemma_flat_append(t1 + t2, t3);
    lemma_flat_append(t1, t2);
    lemma_flat_tok(Mark::Plain, varuint((s.skip_rounds as nat) as u64));
    assert((s.skip_rounds as nat) as u64 == s.skip_rounds as u64);
    assert(flat(t2) == h_chals()(s.zero_check_round_poly));
    assert(flat(t3) == h_chals()(s.eval_check_round_poly));
}

proof fn lemma_skips_layout()
    ensures
        lays_out(f_skip(), h_skip()),
{
    assert forall|s: SpecSkip| #[trigger] flat(f_skip()(s)) == h_skip()(s) by {
        lemma_skip_layout(s);
    }
}

/// The AIR section is written as its list of univariate skips, then the regular batched
/// sumcheck, then the univariate evaluation-check batched sumcheck.
pub proof fn lemma_air_layout(a: SpecAir)
    ensures
        flat(toks_air(a)) == list_bytes(a.univariate_skips, h_skip()) + batch_bytes(a.regular)
            + batch_bytes(a.univariate_eval_check),
{
    lemma_skips_layout();
    lemma_vec_layout(a.univariate_skips, f_skip(), h_skip());
    lemma_batch_layout(a.regular);
    lemma_batch_layout(a.univariate_eval_check);
    let t1 = toks_vec(a.univariate_skips, f_skip());
    let t2 = crate::format::toks_batch(a.regular);
    let t3 = crate::format::toks_batch(a.univariate_eval_check);
    lemma_flat_append(t1 + t2, t3);
    lemma_flat_append(t1, t2);
    assert(t2 == f_batch()(a.regular));
    assert(t3 == f_batch()(a.univariate_eval_check));
}

/// The PIOP section is written as the fractional sum, then the AIR section.
pub proof fn lemma_piop_layout(p: SpecPiop)
    ensures
        flat(crate::format::toks_piop(p)) == piop_bytes(p),
{
    lemma_fractional_sum_layout(p.fractional_sum);
    lemma_air_layout(p.air);
    lemma_flat_append(crate::format::toks_fractional_sum(p.fractional_sum), toks_air(p.air));
}

/// A query opening is written as its tag byte (`0` base, `1` extension), its values and its
/// Merkle siblings.
pub proof fn lemma_query_layout(q: SpecQuery)
    ensures
        flat(f_query()(q)) == query_bytes(q),
{
    lemma_val_layout();
    lemma_chal_layout(Mark::Plain);
    lemma_sibling_layout();
    match q {
        SpecQuery::Base { values, proof } => {
            let t0 = crate::format::t_u8(0);
            let t1 = toks_vec(values, f_val());
            let t2 = toks_vec(proof, f_sibling());
            lemma_vec_layout(values, f_val(), h_val());
            lemma_vec_layout(proof, f_sibling(), h_word());
            lemma_flat_tok(Mark::Plain, seq![0u8]);
            lemma_flat_append(t0 + t1, t2);
            lemma_flat_append(t0, t1);
        },
        SpecQuery::Extension { values, proof } => {
            let t0 = crate::format::t_u8(1);
            let t1 = toks_vec(values, f_chal(Mark::Plain));
            let t2 = toks_vec(proof, f_sibling());
            lemma_vec_layout(values, f_chal(Mark::Plain), h_chal());
            lemma_vec_layout(proof, f_sibling(), h_word());
            lemma_flat_tok(Mark::Plain, seq![1u8]);
            lemma_flat_append(t0 + t1, t2);
            lemma_flat_append(t0, t1);
        },
    }
}

proof fn lemma_queries_layout()
    ensures
        lays_out(f_query(), h_query()),
{
    assert forall|q: SpecQuery| #[trigger] flat(f_query()(q)) == h_query()(q) by {
        lemma_query_layout(q);
    }
}

/// A WHIR round is written as commitment, OOD answers, PoW witness, queries, sumcheck.
pub proof fn lemma_round_layout(r: SpecRound)
    ensures
        flat(f_round()(r)) == round_bytes(r),
{
    lemma_chals_layout(Mark::OodAnswer);
    lemma_queries_layout();
    lemma_vec_layout(r.queries, f_query(), h_query());
    lemma_sumcheck_layout(r.sumcheck);
    let t1 = crate::format::t_digest(Mark::Plain, r.commitment);
    let t2 = toks_vec(r.ood_answers, f_chal(Mark::OodAnswer));
    let t3 = crate::format::t_val(r.pow_witness);
    let t4 = toks_vec(r.queries, f_query());
    let t5 = crate::format::toks_sumcheck(r.sumcheck);
    lemma_flat_tok(Mark::Plain, crate::keccak::digest_bytes(r.commitment));
    lemma_flat_tok(Mark::Plain, be32(r.pow_witness));
    lemma_flat_append(t1 + t2 + t3 + t4, t5);
    lemma_flat_append(t1 + t2 + t3, t4);
    lemma_flat_append(t1 + t2, t3);
    lemma_flat_append(t1, t2);
    assert(t5 == f_sumcheck()(r.sumcheck));
}

proof fn lemma_rounds_layout()
    ensures
        lays_out(f_round(), h_round()),
{
    assert forall|r: SpecRound| #[trigger] flat(f_round()(r)) == h_round()(r) by {
        lemma_round_layout(r);
    }
}

proof fn lemma_final_poly_layout()
    ensures
        lays_out(f_final_poly(), h_chals()),
{
    lemma_chals_layout(Mark::Plain);
    assert forall|v: Seq<Challenge>| #[trigger] flat(f_final_poly()(v)) == h_chals()(v) by {
        let marker: Seq<Tok> = if v.len() > 0 {
            crate::blob::tok(Mark::FinalPoly, seq![])
        } else {
            seq![]
        };
        if v.len() > 0 {
            lemma_flat_tok(Mark::FinalPoly, seq![]);
        } else {
            crate::blob::lemma_flat_empty();
        }
        lemma_flat_append(marker, toks_vec(v, f_chal(Mark::Plain)));
        assert(flat(toks_vec(v, f_chal(Mark::Plain))) == chals_bytes(v));
        assert(flat(marker) + chals_bytes(v) =~= chals_bytes(v));
    }
}

/// A WHIR proof is written as initial commitment, initial OOD answers, initial sumcheck,
/// rounds, optional final polynomial, final PoW witness, final queries, optional final
/// sumcheck.
#[verifier::spinoff_prover]
pub proof fn lemma_whir_layout(w: SpecWhir)
    ensures
        flat(f_whir()(w)) == whir_bytes(w),
{
    lemma_chals_layout(Mark::OodAnswer);
    lemma_sumcheck_layout(w.initial_sumcheck);
    lemma_rounds_layout();
    lemma_vec_layout(w.rounds, f_round(), h_round());
    lemma_final_poly_layout();
    lemma_option_layout(w.final_poly, f_final_poly(), h_chals());
    lemma_queries_layout();
    lemma_vec_layout(w.final_queries, f_query(), h_query());
    lemma_sumchecks_layout();
    lemma_option_layout(w.final_sumcheck, f_sumcheck(), h_sumcheck());
    lemma_flat_tok(Mark::Plain, crate::keccak::digest_bytes(w.initial_commitment));
    lemma_flat_tok(Mark::Plain, be32(w.final_pow_witness));
    let t1 = crate::format::t_digest(Mark::Plain, w.initial_commitment);
    let t2 = toks_vec(w.initial_ood_answers, f_chal(Mark::OodAnswer));
    let t3 = crate::format::toks_sumcheck(w.initial_sumcheck);
    let t4 = toks_vec(w.rounds, f_round());
    let t5 = toks_option(w.final_poly, f_final_poly());
    let t6 = crate::format::t_val(w.final_pow_witness);
    let t7 = toks_vec(w.final_queries, f_query());
    let t8 = toks_option(w.final_sumcheck, f_sumcheck());
    lemma_flat_append(t1 + t2 + t3 + t4 + t5 + t6 + t7, t8);
    lemma_flat_append(t1 + t2 + t3 + t4 + t5 + t6, t7);
    lemma_flat_append(t1 + t2 + t3 + t4 + t5, t6);
    lemma_flat_append(t1 + t2 + t3 + t4, t5);
    lemma_flat_append(t1 + t2 + t3, t4);
    lemma_flat_append(t1 + t2, t3);
    lemma_flat_append(t1, t2);
    assert(f_whir()(w) == t1 + t2 + t3 + t4 + t5 + t6 + t7 + t8);
}

proof fn lemma_whirs_layout()
    ensures
        lays_out(f_whir(), h_whir()),
{
    assert forall|w: SpecWhir| #[trigger] flat(f_whir()(w)) == h_whir()(w) by {
        lemma_whir_layout(w);
    }
}

/// The encoder writes exactly the layout: for all public inputs and proofs, the bytes of the
/// blob are `"HPK1"`, version `1`, the public inputs, `log_bs`, the commitment, the PIOP
/// section and the WHIR proofs, each section laid out part by part in its fixed order.
#[verifier::spinoff_prover]
pub proof fn lemma_blob_layout(public_inputs: Seq<Seq<u32>>, p: SpecProof)
    ensures
        blob_bytes(public_inputs, p) == blob_layout(public_inputs, p),
{
    lemma_vals_layout();
    lemma_vec_layout(public_inputs, f_vals(), h_vals());
    lemma_len_layout();
    lemma_vec_layout(p.log_bs, f_len(), h_len());
    lemma_piop_layout(p.piop);
    lemma_whirs_layout();
    lemma_vec_layout(p.pcs, f_whir(), h_whir());
    let t1 = plain(crate::format::blob_magic());
    let t2 = crate::format::t_u8(1);
    let t3 = toks_vec(public_inputs, f_vals());
    let t4 = toks_vec(p.log_bs, f_len());
    let t5 = crate::format::t_digest(Mark::Commitment, p.commitment);
    let t6 = crate::format::toks_piop(p.piop);
    let t7 = toks_vec(p.pcs, f_whir());
    lemma_flat_tok(Mark::Plain, crate::format::blob_magic());
    lemma_flat_tok(Mark::Plain, seq![1u8]);
    lemma_flat_tok(Mark::Commitment, crate::keccak::digest_bytes(p.commitment));
    lemma_flat_append(t1 + t2 + t3 + t4 + t5 + t6, t7);
    lemma_flat_append(t1 + t2 + t3 + t4 + t5, t6);
    lemma_flat_append(t1 + t2 + t3 + t4, t5);
    lemma_flat_append(t1 + t2 + t3, t4);
    lemma_flat_append(t1 + t2, t3);
    lemma_flat_append(t1, t2);
    assert(crate::format::toks_blob(public_inputs, p) == t1 + t2 + t3 + t4 + t5 + t6 + t7);
}

// ---------------------------------------------------------------------------------------------
// The decoder reads the layout.
// ---------------------------------------------------------------------------------------------

/// Decoding bytes laid out as a blob of well-formed public inputs and proof gives them back.
pub proof fn lemma_layout_decodes(public_inputs: Seq<Seq<u32>>, p: SpecProof)
    requires
        crate::model::public_inputs_wf(public_inputs),
        p.wf(),
    ensures
        crate::parse::parse_blob(blob_layout(public_inputs, p)) == Ok::<SpecBlob, DecodeError>(
            SpecBlob { public_inputs, proof: p },
        ),
{
    lemma_blob_layout(public_inputs, p);
    crate::roundtrip::lemma_blob_roundtrip(public_inputs, p);
}

/// Wherever the bytes of `e0` followed by those of `e1` stand, the decoder reads the WHIR
/// sumcheck evaluation pair `[e0, e1]` from them.
pub proof fn lemma_pair_decodes(e: (Challenge, Challenge), pre: Seq<u8>, rest: Seq<u8>)
    requires
        crate::model::pair_wf(e),
    ensures
        crate::parse::parse_pair(pre + (chal_bytes(e.0) + chal_bytes(e.1)) + rest, pre.len())
            == Ok::<((Challenge, Challenge), nat), DecodeError>((e, pre.len() + 32)),
{
    lemma_pair_layout(e);
    crate::roundtrip::lemma_rt_pair(e);
    assert(crate::parse::p_pair()(pre + flat(f_pair()(e)) + rest, pre.len()) == Ok::<
        ((Challenge, Challenge), nat),
        DecodeError,
    >((e, pre.len() + flat(f_pair()(e)).len())));
}

/// Wherever a list of evaluation pairs followed by a list of PoW witnesses stands, the
/// decoder reads a WHIR sumcheck with those pairs and those witnesses.
pub proof fn lemma_sumcheck_decodes(s: SpecSumcheck, pre: Seq<u8>, rest: Seq<u8>)
    requires
        s.wf(),
    ensures
        ({
            let bytes = list_bytes(s.polynomial_evaluations, h_pair()) + vals_bytes(s.pow_witnesses);
            crate::parse::parse_sumcheck(pre + bytes + rest, pre.len()) == Ok::<(SpecSumcheck, nat), DecodeError>(
                (s, pre.len() + bytes.len()),
            )
        }),
{
    lemma_sumcheck_layout(s);
    crate::roundtrip::lemma_rt_sumcheck(s);
    assert(crate::parse::p_sumcheck()(pre + flat(f_sumcheck()(s)) + rest, pre.len()) == Ok::<
        (SpecSumcheck, nat),
        DecodeError,
    >((s, pre.len() + flat(f_sumcheck()(s)).len())));
}

/// Wherever a batched sumcheck's list of compressed round polynomials followed by its list of
/// evaluation sets stands, the decoder reads that batched sumcheck.
pub proof fn lemma_batch_decodes(x: SpecBatchSumcheck, pre: Seq<u8>, rest: Seq<u8>)
    requires
        x.wf(),
    ensures
        ({
            let bytes = list_bytes(x.compressed_round_polys, h_chals()) + list_bytes(x.evals, h_chals());
            crate::parse::parse_batch(pre + bytes + rest, pre.len()) == Ok::<(SpecBatchSumcheck, nat), DecodeError>(
                (x, pre.len() + bytes.len()),
            )
        }),
{
    lemma_batch_layout(x);
    crate::roundtrip::lemma_rt_batch(x);
    assert(crate::parse::p_batch()(pre + flat(f_batch()(x)) + rest, pre.len()) == Ok::<
        (SpecBatchSumcheck, nat),
        DecodeError,
    >((x, pre.len() + flat(f_batch()(x)).len())));
}

/// Wherever a skip's number of rounds, zero-check round polynomial and evaluation-check
/// round polynomial stand one after the other, the decoder reads them into those fields.
pub proof fn lemma_skip_decodes(s: SpecSkip, pre: Seq<u8>, rest: Seq<u8>)
    requires
        s.wf(),
    ensures
        ({
            let bytes = varuint(s.skip_rounds as u64) + chals_bytes(s.zero_check_round_poly)
                + chals_bytes(s.eval_check_round_poly);
            crate::parse::parse_skip(pre + bytes + rest, pre.len()) == Ok::<(SpecSkip, nat), DecodeError>(
                (s, pre.len() + bytes.len()),
            )
        }),
{
    lemma_skip_layout(s);
    crate::roundtrip::lemma_rt_skip(s);
    assert(crate::parse::p_skip()(pre + flat(f_skip()(s)) + rest, pre.len()) == Ok::<
        (SpecSkip, nat),
        DecodeError,
    >((s, pre.len() + flat(f_skip()(s)).len())));
}

/// Wherever the univariate skips, the regular batched sumcheck and the univariate
/// evaluation-check batched sumcheck stand one after the other, the decoder reads them into
/// those fields.
pub proof fn lemma_air_decodes(a: SpecAir, pre: Seq<u8>, rest: Seq<u8>)
    requires
        a.wf(),
    ensures
        ({
            let bytes = list_bytes(a.univariate_skips, h_skip()) + batch_bytes(a.regular)
                + batch_bytes(a.univariate_eval_check);
            crate::parse::parse_air(pre + bytes + rest, pre.len()) == Ok::<(SpecAir, nat), DecodeError>(
                (a, pre.len() + bytes.len()),
            )
        }),
{
    lemma_air_layout(a);
    crate::roundtrip::lemma_rt_air(a, pre, rest);
}

// ---------------------------------------------------------------------------------------------
// Big-endian limbs and words.
// ---------------------------------------------------------------------------------------------

/// A limb's four bytes are its base-256 digits, most significant first.
pub proof fn lemma_be32_digits(x: u32)
    ensures
        be32(x).len() == 4,
        be32(x)[0] == x / 0x100_0000,
        be32(x)[1] == (x / 0x1_0000) % 0x100,
        be32(x)[2] == (x / 0x100) % 0x100,
        be32(x)[3] == x % 0x100,
{
    assert(((x >> 24u32) as u8) == x / 0x100_0000 && ((x >> 16u32) as u8) == (x / 0x1_0000) % 0x100
        && ((x >> 8u32) as u8) == (x / 0x100) % 0x100 && (x as u8) == x % 0x100) by (bit_vector);
}

/// A word's eight bytes are its base-256 digits, most significant first.
pub proof fn lemma_be64_digits(x: u64)
    ensures
        be64(x).len() == 8,
        be64(x)[0] == x / 0x100_0000_0000_0000,
        be64(x)[1] == (x / 0x1_0000_0000_0000) % 0x100,
        be64(x)[2] == (x / 0x100_0000_0000) % 0x100,
        be64(x)[3] == (x / 0x1_0000_0000) % 0x100,
        be64(x)[4] == (x / 0x100_0000) % 0x100,
        be64(x)[5] == (x / 0x1_0000) % 0x100,
        be64(x)[6] == (x / 0x100) % 0x100,
        be64(x)[7] == x % 0x100,
{
    assert(((x >> 56u64) as u8) == x / 0x100_0000_0000_0000
        && ((x >> 48u64) as u8) == (x / 0x1_0000_0000_0000) % 0x100
        && ((x >> 40u64) as u8) == (x / 0x100_0000_0000) % 0x100
        && ((x >> 32u64) as u8) == (x / 0x1_0000_0000) % 0x100
        && ((x >> 24u64) as u8) == (x / 0x100_0000) % 0x100
        && ((x >> 16u64) as u8) == (x / 0x1_0000) % 0x100
        && ((x >> 8u64) as u8) == (x / 0x100) % 0x100 && (x as u8) == x % 0x100) by (bit_vector);
}

/// A length is written in base 128, least significant digit first, one digit per byte, with
/// the high bit set on every byte but the last.
pub proof fn lemma_varuint_digits(x: u64)
    ensures
        x < 128 ==> varuint(x) == seq![x as u8],
        x >= 128 ==> varuint(x) == seq![(x % 128 + 128) as u8] + varuint(x / 128),
{
    if x >= 128 {
        assert(((x & 0x7fu64) | 0x80u64) as u8 == (x % 128 + 128) as u8 && (x >> 7u64) == x / 128)
            by (bit_vector);
    }
}

} // verus!
