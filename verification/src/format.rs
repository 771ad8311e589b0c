//! The proof blob format as sequences of fields.
use crate::blob::{
    challenge_bytes, emits, flat, lemma_emits_seq, plain, tok, varuint, Mark, ProofBlobOffsets, Tok,
};
use crate::bytes::be32;
use crate::field::Challenge;
use crate::keccak::digest_bytes;
use crate::model::{
    Fraction, SpecAir, SpecBatchSumcheck, SpecFractionalSum, SpecPiop, SpecProof, SpecQuery,
    SpecRound, SpecSkip, SpecSumcheck, SpecWhir,
};
use vstd::prelude::*;

verus! {

/// Magic bytes opening every proof blob: `"HPK1"`.
pub open spec fn blob_magic() -> Seq<u8> {
    seq![0x48u8, 0x50u8, 0x4bu8, 0x31u8]
}

/// Format version written after the magic.
pub const PROOF_BLOB_VERSION: u8 = 1;

pub open spec fn t_len(n: nat) -> Seq<Tok> {
    plain(varuint(n as u64))
}

pub open spec fn t_u8(b: u8) -> Seq<Tok> {
    plain(seq![b])
}

pub open spec fn t_val(v: u32) -> Seq<Tok> {
    plain(be32(v))
}

pub open spec fn t_chal(m: Mark, c: Challenge) -> Seq<Tok> {
    tok(m, challenge_bytes(c))
}

pub open spec fn t_digest(m: Mark, d: Seq<u64>) -> Seq<Tok> {
    tok(m, digest_bytes(d))
}

/// The fields of each item of `xs`, in order.
#[verifier::opaque]
pub open spec fn toks_rep<T>(xs: Seq<T>, f: spec_fn(T) -> Seq<Tok>) -> Seq<Tok>
    decreases xs.len(),
{
    if xs.len() == 0 {
        seq![]
    } else {
        toks_rep(xs.drop_last(), f) + f(xs.last())
    }
}

/// A length-prefixed sequence.
pub open spec fn toks_vec<T>(xs: Seq<T>, f: spec_fn(T) -> Seq<Tok>) -> Seq<Tok> {
    t_len(xs.len()) + toks_rep(xs, f)
}

/// An optional section: tag `0`, or tag `1` followed by the section.
pub open spec fn toks_option<T>(o: Option<T>, f: spec_fn(T) -> Seq<Tok>) -> Seq<Tok> {
    match o {
        None => t_u8(0),
        Some(x) => t_u8(1) + f(x),
    }
}

pub open spec fn f_val() -> spec_fn(u32) -> Seq<Tok> {
    |v: u32| t_val(v)
}

pub open spec fn f_len() -> spec_fn(usize) -> Seq<Tok> {
    |n: usize| t_len(n as nat)
}

pub open spec fn f_chal(m: Mark) -> spec_fn(Challenge) -> Seq<Tok> {
    |c: Challenge| t_chal(m, c)
}

pub open spec fn f_sibling() -> spec_fn(Seq<u64>) -> Seq<Tok> {
    |d: Seq<u64>| t_digest(Mark::MerkleSibling, d)
}

/// A round polynomial (or evaluation set) of sumcheck coefficients.
pub open spec fn f_sc_poly() -> spec_fn(Seq<Challenge>) -> Seq<Tok> {
    |p: Seq<Challenge>| toks_vec(p, f_chal(Mark::SumcheckCoeff))
}

pub open spec fn f_vals() -> spec_fn(Seq<u32>) -> Seq<Tok> {
    |v: Seq<u32>| toks_vec(v, f_val())
}

pub open spec fn toks_fraction(fr: Fraction) -> Seq<Tok> {
    t_chal(Mark::SumcheckCoeff, fr.numer) + t_chal(Mark::SumcheckCoeff, fr.denom)
}

pub open spec fn f_fractions() -> spec_fn(Seq<Fraction>) -> Seq<Tok> {
    |v: Seq<Fraction>| toks_vec(v, f_fraction())
}

pub open spec fn toks_batch(b: SpecBatchSumcheck) -> Seq<Tok> {
    toks_vec(b.compressed_round_polys, f_sc_poly()) + toks_vec(b.evals, f_sc_poly())
}

pub open spec fn toks_fractional_sum(f: SpecFractionalSum) -> Seq<Tok> {
    toks_vec(f.sums, f_fractions()) + toks_vec(f.layers, f_batch())
}

pub open spec fn toks_skip(s: SpecSkip) -> Seq<Tok> {
    t_len(s.skip_rounds as nat) + f_sc_poly()(s.zero_check_round_poly) + f_sc_poly()(
        s.eval_check_round_poly,
    )
}

pub open spec fn toks_air(a: SpecAir) -> Seq<Tok> {
    toks_vec(a.univariate_skips, f_skip()) + toks_batch(a.regular) + toks_batch(
        a.univariate_eval_check,
    )
}

pub open spec fn toks_piop(p: SpecPiop) -> Seq<Tok> {
    toks_fractional_sum(p.fractional_sum) + toks_air(p.air)
}

pub open spec fn toks_pair(e: (Challenge, Challenge)) -> Seq<Tok> {
    t_chal(Mark::SumcheckCoeff, e.0) + t_chal(Mark::SumcheckCoeff, e.1)
}

pub open spec fn toks_sumcheck(s: SpecSumcheck) -> Seq<Tok> {
    toks_vec(s.polynomial_evaluations, f_pair()) + toks_vec(
        s.pow_witnesses,
        f_val(),
    )
}

pub open spec fn toks_query(q: SpecQuery) -> Seq<Tok> {
    match q {
        SpecQuery::Base { values, proof } => t_u8(0) + toks_vec(values, f_val()) + toks_vec(
            proof,
            f_sibling(),
        ),
        SpecQuery::Extension { values, proof } => t_u8(1) + toks_vec(
            values,
            f_chal(Mark::Plain),
        ) + toks_vec(proof, f_sibling()),
    }
}

pub open spec fn f_query() -> spec_fn(SpecQuery) -> Seq<Tok> {
    |q: SpecQuery| toks_query(q)
}

pub open spec fn toks_round(r: SpecRound) -> Seq<Tok> {
    t_digest(Mark::Plain, r.commitment) + toks_vec(r.ood_answers, f_chal(Mark::OodAnswer)) + t_val(
        r.pow_witness,
    ) + toks_vec(r.queries, f_query()) + toks_sumcheck(r.sumcheck)
}

/// The final polynomial: a zero-width marker before its length when it is non-empty, then
/// its evaluations.
pub open spec fn toks_final_poly(p: Seq<Challenge>) -> Seq<Tok> {
    (if p.len() > 0 {
        tok(Mark::FinalPoly, seq![])
    } else {
        seq![]
    }) + toks_vec(p, f_chal(Mark::Plain))
}

pub open spec fn toks_whir(w: SpecWhir) -> Seq<Tok> {
    t_digest(Mark::Plain, w.initial_commitment) + toks_vec(
        w.initial_ood_answers,
        f_chal(Mark::OodAnswer),
    ) + toks_sumcheck(w.initial_sumcheck) + toks_vec(w.rounds, f_round())
        + toks_option(w.final_poly, f_final_poly()) + t_val(
        w.final_pow_witness,
    ) + toks_vec(w.final_queries, f_query()) + toks_option(w.final_sumcheck, f_sumcheck())
}

/// The whole blob: magic, version, public inputs, `log_bs`, commitment, PIOP, WHIR proofs.
pub open spec fn toks_blob(public_inputs: Seq<Seq<u32>>, p: SpecProof) -> Seq<Tok> {
    plain(blob_magic()) + t_u8(PROOF_BLOB_VERSION) + toks_vec(public_inputs, f_vals()) + toks_vec(
        p.log_bs,
        f_len(),
    ) + t_digest(Mark::Commitment, p.commitment) + toks_piop(p.piop) + toks_vec(p.pcs, f_whir())
}

/// The bytes of a proof blob.
pub open spec fn blob_bytes(public_inputs: Seq<Seq<u32>>, p: SpecProof) -> Seq<u8> {
    flat(toks_blob(public_inputs, p))
}

pub open spec fn f_fraction() -> spec_fn(Fraction) -> Seq<Tok> {
    |fr: Fraction| toks_fraction(fr)
}

pub open spec fn f_batch() -> spec_fn(SpecBatchSumcheck) -> Seq<Tok> {
    |b: SpecBatchSumcheck| toks_batch(b)
}

pub open spec fn f_skip() -> spec_fn(SpecSkip) -> Seq<Tok> {
    |x: SpecSkip| toks_skip(x)
}

pub open spec fn f_pair() -> spec_fn((Challenge, Challenge)) -> Seq<Tok> {
    |e: (Challenge, Challenge)| toks_pair(e)
}

pub open spec fn f_sumcheck() -> spec_fn(SpecSumcheck) -> Seq<Tok> {
    |x: SpecSumcheck| toks_sumcheck(x)
}

pub open spec fn f_round() -> spec_fn(SpecRound) -> Seq<Tok> {
    |r: SpecRound| toks_round(r)
}

pub open spec fn f_final_poly() -> spec_fn(Seq<Challenge>) -> Seq<Tok> {
    |x: Seq<Challenge>| toks_final_poly(x)
}

pub open spec fn f_whir() -> spec_fn(SpecWhir) -> Seq<Tok> {
    |w: SpecWhir| toks_whir(w)
}

/// Appending one item to a repetition appends its fields.
pub proof fn lemma_toks_rep_push<T>(xs: Seq<T>, f: spec_fn(T) -> Seq<Tok>, x: T)
    ensures
        toks_rep(xs.push(x), f) == toks_rep(xs, f) + f(x),
{
    reveal(toks_rep);
    assert(xs.push(x).drop_last() =~= xs);
}


/// One more item of a repetition has been written.
pub proof fn lemma_emits_rep_step<T>(
    w0: Seq<u8>,
    w1: Seq<u8>,
    w2: Seq<u8>,
    o0: ProofBlobOffsets,
    o1: ProofBlobOffsets,
    o2: ProofBlobOffsets,
    head: Seq<Tok>,
    xs: Seq<T>,
    i: int,
    f: spec_fn(T) -> Seq<Tok>,
)
    requires
        0 <= i < xs.len(),
        emits(w0, w1, o0, o1, head + toks_rep(xs.take(i), f)),
        emits(w1, w2, o1, o2, f(xs[i])),
    ensures
        emits(w0, w2, o0, o2, head + toks_rep(xs.take(i + 1), f)),
{
    lemma_emits_seq(w0, w1, w2, o0, o1, o2, head + toks_rep(xs.take(i), f), f(xs[i]));
    assert(xs.take(i + 1) =~= xs.take(i).push(xs[i]));
    lemma_toks_rep_push(xs.take(i), f, xs[i]);
    assert(head + toks_rep(xs.take(i), f) + f(xs[i]) =~= head + toks_rep(xs.take(i + 1), f));
}

/// Nothing of a repetition has been written yet.
pub proof fn lemma_rep_take0<T>(head: Seq<Tok>, xs: Seq<T>, f: spec_fn(T) -> Seq<Tok>)
    ensures
        head + toks_rep(xs.take(0), f) == head,
{
    reveal(toks_rep);
    assert(xs.take(0) =~= Seq::<T>::empty());
    assert(head + toks_rep(xs.take(0), f) =~= head);
}

/// The whole repetition has been written.
pub proof fn lemma_rep_take_all<T>(xs: Seq<T>)
    ensures
        xs.take(xs.len() as int) == xs,
{
    assert(xs.take(xs.len() as int) =~= xs);
}

} // verus!
