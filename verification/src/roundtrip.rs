//! Decoding an encoded proof gives the proof back.
use crate::blob::{
    challenge_bytes, flat, lemma_flat_append, lemma_parse_len_roundtrip, lemma_single_tok,
    parse_challenge, parse_digest, parse_len_at, parse_u8, parse_val, plain, tok, varuint,
    DecodeError, Mark, Tok,
};
use crate::bytes::{be32, lemma_be32_roundtrip};
use crate::field::{is_canonical_val, Challenge};
use crate::format::{
    blob_bytes, blob_magic, f_whir, toks_blob, toks_whir, f_batch, f_chal, f_final_poly, f_fraction,
    f_fractions, f_pair, f_query, f_round, f_sc_poly, f_sibling, f_skip, f_sumcheck, f_val, f_vals,
    t_chal, t_digest, t_len, t_u8, t_val, toks_air, toks_batch, toks_final_poly,
    toks_fractional_sum, toks_option, toks_piop, toks_query, toks_rep, toks_round, toks_skip,
    toks_sumcheck, toks_vec,
};
use crate::keccak::{digest_bytes, lemma_digest_words_of_bytes};
use crate::model::{
    fits, is_pow2, ok_chals, ok_digests, ok_fractions, ok_polys, ok_vals, pair_wf, queries_wf,
    Fraction, SpecAir, SpecBatchSumcheck, SpecFractionalSum, SpecPiop, SpecQuery, SpecRound,
    SpecSkip, SpecSumcheck, SpecWhir, SpecBlob, SpecProof, public_inputs_wf,
};
use crate::parse::{
    parse_blob, p_whir, parse_whir, parse_whir_head, parse_whir_tail, p_batch, p_chal, p_digest,
    p_final_poly, p_fraction, p_fractions, p_pair, p_poly, p_query, p_round, p_skip, p_sumcheck,
    p_val, p_vals, parse_air, parse_batch, parse_fractional_sum, parse_option, parse_piop,
    parse_query, parse_rep, parse_round, parse_skip, parse_sumcheck, parse_vec, Parser,
};
use vstd::prelude::*;

verus! {

/// Reading `fp` where the fields `fs(x)` were written gives `x` back and stops right after
/// them, whatever precedes and follows.
pub open spec fn rt<T>(x: T, fs: spec_fn(T) -> Seq<Tok>, fp: Parser<T>) -> bool {
    forall|pre: Seq<u8>, rest: Seq<u8>|
        #[trigger] fp(pre + flat(fs(x)) + rest, pre.len()) == Ok::<(T, nat), DecodeError>(
            (x, pre.len() + flat(fs(x)).len()),
        )
}

pub proof fn lemma_flat_tok(m: Mark, b: Seq<u8>)
    ensures
        flat(tok(m, b)) == b,
{
    lemma_single_tok(crate::blob::ProofBlobOffsets::none(), 0, Tok { mark: m, bytes: b });
}

#[verifier::spinoff_prover]
pub proof fn lemma_rt_u8(v: u8, pre: Seq<u8>, rest: Seq<u8>)
    ensures
        flat(t_u8(v)).len() == 1,
        parse_u8(pre + flat(t_u8(v)) + rest, pre.len()) == Ok::<(u8, nat), DecodeError>(
            (v, pre.len() + 1),
        ),
{
    lemma_flat_tok(Mark::Plain, seq![v]);
    assert((pre + seq![v] + rest)[pre.len() as int] == v);
}

#[verifier::spinoff_prover]
pub proof fn lemma_rt_val(v: u32, pre: Seq<u8>, rest: Seq<u8>)
    requires
        is_canonical_val(v),
    ensures
        flat(t_val(v)).len() == 4,
        parse_val(pre + flat(t_val(v)) + rest, pre.len()) == Ok::<(u32, nat), DecodeError>(
            (v, pre.len() + 4),
        ),
{
    lemma_flat_tok(Mark::Plain, be32(v));
    let s = pre + be32(v) + rest;
    assert(s.subrange(pre.len() as int, pre.len() + 4int) =~= be32(v));
    lemma_be32_roundtrip(v, s, pre.len() as int);
}

#[verifier::spinoff_prover]
pub proof fn lemma_rt_val_f(v: u32)
    requires
        is_canonical_val(v),
    ensures
        rt(v, crate::format::f_val(), crate::parse::p_val()),
{
    assert forall|pre: Seq<u8>, rest: Seq<u8>|
        #[trigger] crate::parse::p_val()(pre + flat(crate::format::f_val()(v)) + rest, pre.len())
            == Ok::<(u32, nat), DecodeError>(
            (v, pre.len() + flat(crate::format::f_val()(v)).len()),
        ) by {
        lemma_rt_val(v, pre, rest);
    }
}

#[verifier::spinoff_prover]
pub proof fn lemma_rt_chal(m: Mark, c: Challenge, pre: Seq<u8>, rest: Seq<u8>)
    requires
        c.is_canonical(),
    ensures
        flat(t_chal(m, c)).len() == 16,
        parse_challenge(pre + flat(t_chal(m, c)) + rest, pre.len()) == Ok::<
            (Challenge, nat),
            DecodeError,
        >((c, pre.len() + 16)),
{
    lemma_flat_tok(m, challenge_bytes(c));
    let s = pre + challenge_bytes(c) + rest;
    let p = pre.len() as int;
    assert(s.subrange(p, p + 4) =~= be32(c.c0));
    assert(s.subrange(p + 4, p + 8) =~= be32(c.c1));
    assert(s.subrange(p + 8, p + 12) =~= be32(c.c2));
    assert(s.subrange(p + 12, p + 16) =~= be32(c.c3));
    lemma_be32_roundtrip(c.c0, s, p);
    lemma_be32_roundtrip(c.c1, s, p + 4);
    lemma_be32_roundtrip(c.c2, s, p + 8);
    lemma_be32_roundtrip(c.c3, s, p + 12);
}

#[verifier::spinoff_prover]
pub proof fn lemma_rt_chal_f(m: Mark, c: Challenge)
    requires
        c.is_canonical(),
    ensures
        rt(c, f_chal(m), p_chal()),
{
    assert forall|pre: Seq<u8>, rest: Seq<u8>|
        #[trigger] p_chal()(pre + flat(f_chal(m)(c)) + rest, pre.len()) == Ok::<
            (Challenge, nat),
            DecodeError,
        >((c, pre.len() + flat(f_chal(m)(c)).len())) by {
        lemma_rt_chal(m, c, pre, rest);
    }
}

#[verifier::spinoff_prover]
pub proof fn lemma_rt_digest(m: Mark, d: Seq<u64>, pre: Seq<u8>, rest: Seq<u8>)
    requires
        d.len() == 4,
    ensures
        flat(t_digest(m, d)).len() == 32,
        parse_digest(pre + flat(t_digest(m, d)) + rest, pre.len()) == Ok::<
            (Seq<u64>, nat),
            DecodeError,
        >((d, pre.len() + 32)),
{
    lemma_flat_tok(m, digest_bytes(d));
    lemma_digest_words_of_bytes(d);
    let s = pre + digest_bytes(d) + rest;
    assert(s.subrange(pre.len() as int, pre.len() + 32int) =~= digest_bytes(d));
}

#[verifier::spinoff_prover]
pub proof fn lemma_rt_len(n: nat, pre: Seq<u8>, rest: Seq<u8>)
    requires
        fits(n),
    ensures
        parse_len_at(pre + flat(t_len(n)) + rest, pre.len()) == Ok::<(usize, nat), DecodeError>(
            (n as usize, pre.len() + flat(t_len(n)).len()),
        ),
{
    reveal(parse_len_at);
    let x = n as usize;
    assert(x as u64 == n as u64);
    lemma_flat_tok(Mark::Plain, varuint(n as u64));
    lemma_parse_len_roundtrip(x, rest);
    let s = pre + varuint(n as u64) + rest;
    assert(s.subrange(pre.len() as int, s.len() as int) =~= varuint(x as u64) + rest);
}

/// Items written one after another are read back one after another.
#[verifier::spinoff_prover]
pub proof fn lemma_rt_rep<T>(
    xs: Seq<T>,
    fs: spec_fn(T) -> Seq<Tok>,
    fp: Parser<T>,
    pre: Seq<u8>,
    rest: Seq<u8>,
)
    requires
        forall|i: int| 0 <= i < xs.len() ==> rt(#[trigger] xs[i], fs, fp),
    ensures
        parse_rep(pre + flat(toks_rep(xs, fs)) + rest, pre.len(), xs.len(), fp) == Ok::<
            (Seq<T>, nat),
            DecodeError,
        >((xs, pre.len() + flat(toks_rep(xs, fs)).len())),
    decreases xs.len(),
{
    reveal(toks_rep);
    if xs.len() == 0 {
        crate::blob::lemma_flat_empty();
        assert(flat(toks_rep(xs, fs)) =~= Seq::<u8>::empty());
        assert(xs =~= seq![]);
    } else {
        let ys = xs.drop_last();
        let x = xs.last();
        let a = flat(toks_rep(ys, fs));
        let b = flat(fs(x));
        lemma_flat_append(toks_rep(ys, fs), fs(x));
        assert(flat(toks_rep(xs, fs)) == a + b);
        assert forall|i: int| 0 <= i < ys.len() implies rt(#[trigger] ys[i], fs, fp) by {
            assert(ys[i] == xs[i]);
        }
        lemma_rt_rep(ys, fs, fp, pre, b + rest);
        let s = pre + (a + b) + rest;
        assert(pre + a + (b + rest) =~= s);
        assert(rt(xs[xs.len() - 1], fs, fp));
        assert((pre + a) + b + rest =~= s);
        assert(fp((pre + a) + b + rest, (pre + a).len()) == Ok::<(T, nat), DecodeError>(
            (x, (pre + a).len() + b.len()),
        ));
        assert(ys.push(x) =~= xs);
    }
}

/// A length-prefixed list is read back.
#[verifier::spinoff_prover]
pub proof fn lemma_rt_vec<T>(
    xs: Seq<T>,
    fs: spec_fn(T) -> Seq<Tok>,
    fp: Parser<T>,
    pre: Seq<u8>,
    rest: Seq<u8>,
)
    requires
        fits(xs.len()),
        forall|i: int| 0 <= i < xs.len() ==> rt(#[trigger] xs[i], fs, fp),
    ensures
        parse_vec(pre + flat(toks_vec(xs, fs)) + rest, pre.len(), fp) == Ok::<
            (Seq<T>, nat),
            DecodeError,
        >((xs, pre.len() + flat(toks_vec(xs, fs)).len())),
{
    let a = flat(t_len(xs.len()));
    let b = flat(toks_rep(xs, fs));
    lemma_flat_append(t_len(xs.len()), toks_rep(xs, fs));
    let s = pre + (a + b) + rest;
    assert(pre + a + (b + rest) =~= s);
    lemma_rt_len(xs.len(), pre, b + rest);
    assert((pre + a) + b + rest =~= s);
    lemma_rt_rep(xs, fs, fp, pre + a, rest);
}

/// A length-prefixed list is read back, for any context.
#[verifier::spinoff_prover]
pub proof fn lemma_rt_vec_f<T>(xs: Seq<T>, fs: spec_fn(T) -> Seq<Tok>, fp: Parser<T>)
    requires
        fits(xs.len()),
        forall|i: int| 0 <= i < xs.len() ==> rt(#[trigger] xs[i], fs, fp),
    ensures
        forall|pre: Seq<u8>, rest: Seq<u8>|
            #[trigger] parse_vec(pre + flat(toks_vec(xs, fs)) + rest, pre.len(), fp) == Ok::<
                (Seq<T>, nat),
                DecodeError,
            >((xs, pre.len() + flat(toks_vec(xs, fs)).len())),
{
    assert forall|pre: Seq<u8>, rest: Seq<u8>|
        #[trigger] parse_vec(pre + flat(toks_vec(xs, fs)) + rest, pre.len(), fp) == Ok::<
            (Seq<T>, nat),
            DecodeError,
        >((xs, pre.len() + flat(toks_vec(xs, fs)).len())) by {
        lemma_rt_vec(xs, fs, fp, pre, rest);
    }
}

/// The bytes of three consecutive field sequences.
pub proof fn lemma_flat3(a: Seq<Tok>, b: Seq<Tok>, c: Seq<Tok>)
    ensures
        flat(a + b + c) == flat(a) + flat(b) + flat(c),
{
    lemma_flat_append(a + b, c);
    lemma_flat_append(a, b);
}

pub proof fn lemma_flat4(a: Seq<Tok>, b: Seq<Tok>, c: Seq<Tok>, d: Seq<Tok>)
    ensures
        flat(a + b + c + d) == flat(a) + flat(b) + flat(c) + flat(d),
{
    lemma_flat_append(a + b + c, d);
    lemma_flat3(a, b, c);
}

/// Regrouping a four-part field sequence between a prefix and a suffix.
pub proof fn lemma_cat4(pre: Seq<u8>, a: Seq<u8>, b: Seq<u8>, c: Seq<u8>, d: Seq<u8>, rest: Seq<u8>)
    ensures
        pre + (a + b + c + d) + rest == pre + a + (b + c + d + rest),
        pre + (a + b + c + d) + rest == (pre + a) + b + (c + d + rest),
        pre + (a + b + c + d) + rest == (pre + a + b) + c + (d + rest),
        pre + (a + b + c + d) + rest == (pre + a + b + c) + d + rest,
{
    let s = pre + (a + b + c + d) + rest;
    assert(s =~= pre + a + (b + c + d + rest));
    assert(s =~= (pre + a) + b + (c + d + rest));
    assert(s =~= (pre + a + b) + c + (d + rest));
    assert(s =~= (pre + a + b + c) + d + rest);
}

pub proof fn lemma_flat5(a: Seq<Tok>, b: Seq<Tok>, c: Seq<Tok>, d: Seq<Tok>, e: Seq<Tok>)
    ensures
        flat(a + b + c + d + e) == flat(a) + flat(b) + flat(c) + flat(d) + flat(e),
{
    lemma_flat_append(a + b + c + d, e);
    lemma_flat_append(a + b + c, d);
    lemma_flat3(a, b, c);
}

/// Regrouping a five-part field sequence between a prefix and a suffix.
pub proof fn lemma_cat5(pre: Seq<u8>, a: Seq<u8>, b: Seq<u8>, c: Seq<u8>, d: Seq<u8>, e: Seq<u8>, rest: Seq<u8>)
    ensures
        pre + (a + b + c + d + e) + rest == pre + a + (b + c + d + e + rest),
        pre + (a + b + c + d + e) + rest == (pre + a) + b + (c + d + e + rest),
        pre + (a + b + c + d + e) + rest == (pre + a + b) + c + (d + e + rest),
        pre + (a + b + c + d + e) + rest == (pre + a + b + c) + d + (e + rest),
        pre + (a + b + c + d + e) + rest == (pre + a + b + c + d) + e + rest,
{
    let s = pre + (a + b + c + d + e) + rest;
    assert(s =~= pre + a + (b + c + d + e + rest));
    assert(s =~= (pre + a) + b + (c + d + e + rest));
    assert(s =~= (pre + a + b) + c + (d + e + rest));
    assert(s =~= (pre + a + b + c) + d + (e + rest));
    assert(s =~= (pre + a + b + c + d) + e + rest);
}

/// Regrouping a two-part field sequence between a prefix and a suffix.
pub proof fn lemma_cat2(pre: Seq<u8>, a: Seq<u8>, b: Seq<u8>, rest: Seq<u8>)
    ensures
        pre + (a + b) + rest == pre + a + (b + rest),
        pre + (a + b) + rest == (pre + a) + b + rest,
{
    assert(pre + (a + b) + rest =~= pre + a + (b + rest));
    assert(pre + (a + b) + rest =~= (pre + a) + b + rest);
}

/// Regrouping a three-part field sequence between a prefix and a suffix.
pub proof fn lemma_cat3(pre: Seq<u8>, a: Seq<u8>, b: Seq<u8>, c: Seq<u8>, rest: Seq<u8>)
    ensures
        pre + (a + b + c) + rest == pre + a + (b + c + rest),
        pre + (a + b + c) + rest == (pre + a) + b + (c + rest),
        pre + (a + b + c) + rest == (pre + a + b) + c + rest,
{
    assert(pre + (a + b + c) + rest =~= pre + a + (b + c + rest));
    assert(pre + (a + b + c) + rest =~= (pre + a) + b + (c + rest));
    assert(pre + (a + b + c) + rest =~= (pre + a + b) + c + rest);
}

/// Every element of a list of canonical challenges is read back.
#[verifier::spinoff_prover]
pub proof fn lemma_rt_chals(m: Mark, v: Seq<Challenge>)
    requires
        ok_chals(v),
    ensures
        forall|i: int| 0 <= i < v.len() ==> rt(#[trigger] v[i], f_chal(m), p_chal()),
{
    assert forall|i: int| 0 <= i < v.len() implies rt(#[trigger] v[i], f_chal(m), p_chal()) by {
        lemma_rt_chal_f(m, v[i]);
    }
}

#[verifier::spinoff_prover]
pub proof fn lemma_rt_poly(v: Seq<Challenge>)
    requires
        ok_chals(v),
    ensures
        rt(v, f_sc_poly(), p_poly()),
{
    lemma_rt_chals(Mark::SumcheckCoeff, v);
    lemma_rt_vec_f(v, f_chal(Mark::SumcheckCoeff), p_chal());
}

#[verifier::spinoff_prover]
pub proof fn lemma_rt_polys(v: Seq<Seq<Challenge>>)
    requires
        ok_polys(v),
    ensures
        forall|i: int| 0 <= i < v.len() ==> rt(#[trigger] v[i], f_sc_poly(), p_poly()),
{
    assert forall|i: int| 0 <= i < v.len() implies rt(#[trigger] v[i], f_sc_poly(), p_poly()) by {
        lemma_rt_poly(v[i]);
    }
}

#[verifier::spinoff_prover]
pub proof fn lemma_rt_vals(v: Seq<u32>)
    requires
        ok_vals(v),
    ensures
        rt(v, f_vals(), p_vals()),
        forall|i: int| 0 <= i < v.len() ==> rt(#[trigger] v[i], f_val(), p_val()),
{
    assert forall|i: int| 0 <= i < v.len() implies rt(#[trigger] v[i], f_val(), p_val()) by {
        lemma_rt_val_f(v[i]);
    }
    lemma_rt_vec_f(v, f_val(), p_val());
}

#[verifier::spinoff_prover]
pub proof fn lemma_rt_fraction(fr: Fraction)
    requires
        fr.wf(),
    ensures
        rt(fr, f_fraction(), p_fraction()),
{
    assert forall|pre: Seq<u8>, rest: Seq<u8>|
        #[trigger] p_fraction()(pre + flat(f_fraction()(fr)) + rest, pre.len()) == Ok::<
            (Fraction, nat),
            DecodeError,
        >((fr, pre.len() + flat(f_fraction()(fr)).len())) by {
        let a = flat(t_chal(Mark::SumcheckCoeff, fr.numer));
        let b = flat(t_chal(Mark::SumcheckCoeff, fr.denom));
        lemma_flat_append(t_chal(Mark::SumcheckCoeff, fr.numer), t_chal(Mark::SumcheckCoeff, fr.denom));
        lemma_cat2(pre, a, b, rest);
        lemma_rt_chal(Mark::SumcheckCoeff, fr.numer, pre, b + rest);
        lemma_rt_chal(Mark::SumcheckCoeff, fr.denom, pre + a, rest);
    }
}

#[verifier::spinoff_prover]
pub proof fn lemma_rt_fractions(v: Seq<Fraction>)
    requires
        ok_fractions(v),
    ensures
        rt(v, f_fractions(), p_fractions()),
{
    assert forall|i: int| 0 <= i < v.len() implies rt(#[trigger] v[i], f_fraction(), p_fraction()) by {
        lemma_rt_fraction(v[i]);
    }
    lemma_rt_vec_f(v, f_fraction(), p_fraction());
}

#[verifier::spinoff_prover]
pub proof fn lemma_rt_batch_at(x: SpecBatchSumcheck, pre: Seq<u8>, rest: Seq<u8>)
    requires
        x.wf(),
    ensures
        parse_batch(pre + flat(toks_batch(x)) + rest, pre.len()) == Ok::<
            (SpecBatchSumcheck, nat),
            DecodeError,
        >((x, pre.len() + flat(toks_batch(x)).len())),
{
    lemma_rt_polys(x.compressed_round_polys);
    lemma_rt_polys(x.evals);
    let a = flat(toks_vec(x.compressed_round_polys, f_sc_poly()));
    let b = flat(toks_vec(x.evals, f_sc_poly()));
    lemma_flat_append(toks_vec(x.compressed_round_polys, f_sc_poly()), toks_vec(x.evals, f_sc_poly()));
    lemma_cat2(pre, a, b, rest);
    lemma_rt_vec(x.compressed_round_polys, f_sc_poly(), p_poly(), pre, b + rest);
    lemma_rt_vec(x.evals, f_sc_poly(), p_poly(), pre + a, rest);
}

#[verifier::spinoff_prover]
pub proof fn lemma_rt_batch(x: SpecBatchSumcheck)
    requires
        x.wf(),
    ensures
        rt(x, f_batch(), p_batch()),
{
    assert forall|pre: Seq<u8>, rest: Seq<u8>|
        #[trigger] p_batch()(pre + flat(f_batch()(x)) + rest, pre.len()) == Ok::<
            (SpecBatchSumcheck, nat),
            DecodeError,
        >((x, pre.len() + flat(f_batch()(x)).len())) by {
        lemma_rt_batch_at(x, pre, rest);
    }
}

#[verifier::spinoff_prover]
pub proof fn lemma_rt_fractional_sum(x: SpecFractionalSum, pre: Seq<u8>, rest: Seq<u8>)
    requires
        x.wf(),
    ensures
        parse_fractional_sum(pre + flat(toks_fractional_sum(x)) + rest, pre.len()) == Ok::<
            (SpecFractionalSum, nat),
            DecodeError,
        >((x, pre.len() + flat(toks_fractional_sum(x)).len())),
{
    reveal(parse_fractional_sum);
    assert forall|i: int| 0 <= i < x.sums.len() implies rt(#[trigger] x.sums[i], f_fractions(), p_fractions()) by {
        lemma_rt_fractions(x.sums[i]);
    }
    assert forall|i: int| 0 <= i < x.layers.len() implies rt(#[trigger] x.layers[i], f_batch(), p_batch()) by {
        lemma_rt_batch(x.layers[i]);
    }
    let a = flat(toks_vec(x.sums, f_fractions()));
    let b = flat(toks_vec(x.layers, f_batch()));
    lemma_flat_append(toks_vec(x.sums, f_fractions()), toks_vec(x.layers, f_batch()));
    lemma_cat2(pre, a, b, rest);
    lemma_rt_vec(x.sums, f_fractions(), p_fractions(), pre, b + rest);
    lemma_rt_vec(x.layers, f_batch(), p_batch(), pre + a, rest);
}

#[verifier::spinoff_prover]
pub proof fn lemma_rt_skip_at(x: SpecSkip, pre: Seq<u8>, rest: Seq<u8>)
    requires
        x.wf(),
    ensures
        parse_skip(pre + flat(toks_skip(x)) + rest, pre.len()) == Ok::<(SpecSkip, nat), DecodeError>(
            (x, pre.len() + flat(toks_skip(x)).len()),
        ),
{
    lemma_rt_chals(Mark::SumcheckCoeff, x.zero_check_round_poly);
    lemma_rt_chals(Mark::SumcheckCoeff, x.eval_check_round_poly);
    let a = flat(t_len(x.skip_rounds as nat));
    let b = flat(toks_vec(x.zero_check_round_poly, f_chal(Mark::SumcheckCoeff)));
    let c = flat(toks_vec(x.eval_check_round_poly, f_chal(Mark::SumcheckCoeff)));
    lemma_flat3(t_len(x.skip_rounds as nat), toks_vec(x.zero_check_round_poly, f_chal(Mark::SumcheckCoeff)), toks_vec(x.eval_check_round_poly, f_chal(Mark::SumcheckCoeff)));
    lemma_cat3(pre, a, b, c, rest);
    lemma_rt_len(x.skip_rounds as nat, pre, b + c + rest);
    lemma_rt_vec(x.zero_check_round_poly, f_chal(Mark::SumcheckCoeff), p_chal(), pre + a, c + rest);
    lemma_rt_vec(x.eval_check_round_poly, f_chal(Mark::SumcheckCoeff), p_chal(), pre + a + b, rest);
}

#[verifier::spinoff_prover]
pub proof fn lemma_rt_skip(x: SpecSkip)
    requires
        x.wf(),
    ensures
        rt(x, f_skip(), p_skip()),
{
    assert forall|pre: Seq<u8>, rest: Seq<u8>|
        #[trigger] p_skip()(pre + flat(f_skip()(x)) + rest, pre.len()) == Ok::<
            (SpecSkip, nat),
            DecodeError,
        >((x, pre.len() + flat(f_skip()(x)).len())) by {
        lemma_rt_skip_at(x, pre, rest);
    }
}

#[verifier::spinoff_prover]
proof fn lemma_rt_skips(x: SpecAir)
    requires
        x.wf(),
    ensures
        forall|i: int| 0 <= i < x.univariate_skips.len() ==> rt(#[trigger] x.univariate_skips[i], f_skip(), p_skip()),
{
    assert forall|i: int| 0 <= i < x.univariate_skips.len() implies rt(#[trigger] x.univariate_skips[i], f_skip(), p_skip()) by {
        lemma_rt_skip(x.univariate_skips[i]);
    }
}

#[verifier::spinoff_prover]
#[verifier::rlimit(40)]
pub proof fn lemma_rt_air(x: SpecAir, pre: Seq<u8>, rest: Seq<u8>)
    requires
        x.wf(),
    ensures
        parse_air(pre + flat(toks_air(x)) + rest, pre.len()) == Ok::<(SpecAir, nat), DecodeError>(
            (x, pre.len() + flat(toks_air(x)).len()),
        ),
{
    lemma_rt_skips(x);
    let a = flat(toks_vec(x.univariate_skips, f_skip()));
    let b = flat(toks_batch(x.regular));
    let c = flat(toks_batch(x.univariate_eval_check));
    lemma_cat3(pre, a, b, c, rest);
    lemma_rt_vec(x.univariate_skips, f_skip(), p_skip(), pre, b + c + rest);
    lemma_rt_batch_at(x.regular, pre + a, c + rest);
    lemma_rt_batch_at(x.univariate_eval_check, pre + a + b, rest);
    lemma_flat3(toks_vec(x.univariate_skips, f_skip()), toks_batch(x.regular), toks_batch(x.univariate_eval_check));
    reveal(parse_air);
}

#[verifier::spinoff_prover]
pub proof fn lemma_rt_piop(x: SpecPiop, pre: Seq<u8>, rest: Seq<u8>)
    requires
        x.wf(),
    ensures
        parse_piop(pre + flat(toks_piop(x)) + rest, pre.len()) == Ok::<(SpecPiop, nat), DecodeError>(
            (x, pre.len() + flat(toks_piop(x)).len()),
        ),
{
    let a = flat(toks_fractional_sum(x.fractional_sum));
    let b = flat(toks_air(x.air));
    lemma_flat_append(toks_fractional_sum(x.fractional_sum), toks_air(x.air));
    lemma_cat2(pre, a, b, rest);
    lemma_rt_fractional_sum(x.fractional_sum, pre, b + rest);
    lemma_rt_air(x.air, pre + a, rest);
}

#[verifier::spinoff_prover]
pub proof fn lemma_rt_pair(e: (Challenge, Challenge))
    requires
        pair_wf(e),
    ensures
        rt(e, f_pair(), p_pair()),
{
    assert forall|pre: Seq<u8>, rest: Seq<u8>|
        #[trigger] p_pair()(pre + flat(f_pair()(e)) + rest, pre.len()) == Ok::<
            ((Challenge, Challenge), nat),
            DecodeError,
        >((e, pre.len() + flat(f_pair()(e)).len())) by {
        let a = flat(t_chal(Mark::SumcheckCoeff, e.0));
        let b = flat(t_chal(Mark::SumcheckCoeff, e.1));
        lemma_flat_append(t_chal(Mark::SumcheckCoeff, e.0), t_chal(Mark::SumcheckCoeff, e.1));
        lemma_cat2(pre, a, b, rest);
        lemma_rt_chal(Mark::SumcheckCoeff, e.0, pre, b + rest);
        lemma_rt_chal(Mark::SumcheckCoeff, e.1, pre + a, rest);
    }
}

#[verifier::spinoff_prover]
pub proof fn lemma_rt_sumcheck_at(x: SpecSumcheck, pre: Seq<u8>, rest: Seq<u8>)
    requires
        x.wf(),
    ensures
        parse_sumcheck(pre + flat(toks_sumcheck(x)) + rest, pre.len()) == Ok::<
            (SpecSumcheck, nat),
            DecodeError,
        >((x, pre.len() + flat(toks_sumcheck(x)).len())),
{
    assert forall|i: int| 0 <= i < x.polynomial_evaluations.len() implies rt(#[trigger] x.polynomial_evaluations[i], f_pair(), p_pair()) by {
        lemma_rt_pair(x.polynomial_evaluations[i]);
    }
    lemma_rt_vals(x.pow_witnesses);
    let a = flat(toks_vec(x.polynomial_evaluations, f_pair()));
    let b = flat(toks_vec(x.pow_witnesses, f_val()));
    lemma_flat_append(toks_vec(x.polynomial_evaluations, f_pair()), toks_vec(x.pow_witnesses, f_val()));
    lemma_cat2(pre, a, b, rest);
    lemma_rt_vec(x.polynomial_evaluations, f_pair(), p_pair(), pre, b + rest);
    lemma_rt_vec(x.pow_witnesses, f_val(), p_val(), pre + a, rest);
}

#[verifier::spinoff_prover]
pub proof fn lemma_rt_sumcheck(x: SpecSumcheck)
    requires
        x.wf(),
    ensures
        rt(x, f_sumcheck(), p_sumcheck()),
{
    assert forall|pre: Seq<u8>, rest: Seq<u8>|
        #[trigger] p_sumcheck()(pre + flat(f_sumcheck()(x)) + rest, pre.len()) == Ok::<
            (SpecSumcheck, nat),
            DecodeError,
        >((x, pre.len() + flat(f_sumcheck()(x)).len())) by {
        lemma_rt_sumcheck_at(x, pre, rest);
    }
}

#[verifier::spinoff_prover]
pub proof fn lemma_rt_digests(m: Mark, v: Seq<Seq<u64>>)
    requires
        ok_digests(v),
    ensures
        forall|i: int| 0 <= i < v.len() ==> rt(#[trigger] v[i], f_sibling(), p_digest()),
{
    assert forall|i: int| 0 <= i < v.len() implies rt(#[trigger] v[i], f_sibling(), p_digest()) by {
        assert forall|pre: Seq<u8>, rest: Seq<u8>|
            #[trigger] p_digest()(pre + flat(f_sibling()(v[i])) + rest, pre.len()) == Ok::<
                (Seq<u64>, nat),
                DecodeError,
            >((v[i], pre.len() + flat(f_sibling()(v[i])).len())) by {
            lemma_rt_digest(Mark::MerkleSibling, v[i], pre, rest);
        }
    }
}

#[verifier::spinoff_prover]
proof fn lemma_rt_query_base(values: Seq<u32>, proof: Seq<Seq<u64>>, pre: Seq<u8>, rest: Seq<u8>)
    requires
        ok_vals(values),
        ok_digests(proof),
    ensures
        ({
            let q = SpecQuery::Base { values, proof };
            parse_query(pre + flat(toks_query(q)) + rest, pre.len()) == Ok::<(SpecQuery, nat), DecodeError>(
                (q, pre.len() + flat(toks_query(q)).len()),
            )
        }),
{
    lemma_rt_vals(values);
    lemma_rt_digests(Mark::MerkleSibling, proof);
    let a = flat(t_u8(0));
    let b = flat(toks_vec(values, f_val()));
    let c = flat(toks_vec(proof, f_sibling()));
    lemma_flat3(t_u8(0), toks_vec(values, f_val()), toks_vec(proof, f_sibling()));
    lemma_cat3(pre, a, b, c, rest);
    lemma_rt_u8(0, pre, b + c + rest);
    lemma_rt_vec(values, f_val(), p_val(), pre + a, c + rest);
    lemma_rt_vec(proof, f_sibling(), p_digest(), pre + a + b, rest);
}

#[verifier::spinoff_prover]
proof fn lemma_rt_query_ext(values: Seq<Challenge>, proof: Seq<Seq<u64>>, pre: Seq<u8>, rest: Seq<u8>)
    requires
        ok_chals(values),
        ok_digests(proof),
    ensures
        ({
            let q = SpecQuery::Extension { values, proof };
            parse_query(pre + flat(toks_query(q)) + rest, pre.len()) == Ok::<(SpecQuery, nat), DecodeError>(
                (q, pre.len() + flat(toks_query(q)).len()),
            )
        }),
{
    lemma_rt_chals(Mark::Plain, values);
    lemma_rt_digests(Mark::MerkleSibling, proof);
    let a = flat(t_u8(1));
    let b = flat(toks_vec(values, f_chal(Mark::Plain)));
    let c = flat(toks_vec(proof, f_sibling()));
    lemma_flat3(t_u8(1), toks_vec(values, f_chal(Mark::Plain)), toks_vec(proof, f_sibling()));
    lemma_cat3(pre, a, b, c, rest);
    lemma_rt_u8(1, pre, b + c + rest);
    lemma_rt_vec(values, f_chal(Mark::Plain), p_chal(), pre + a, c + rest);
    lemma_rt_vec(proof, f_sibling(), p_digest(), pre + a + b, rest);
}

#[verifier::spinoff_prover]
pub proof fn lemma_rt_query_at(q: SpecQuery, pre: Seq<u8>, rest: Seq<u8>)
    requires
        q.wf(),
    ensures
        parse_query(pre + flat(toks_query(q)) + rest, pre.len()) == Ok::<(SpecQuery, nat), DecodeError>(
            (q, pre.len() + flat(toks_query(q)).len()),
        ),
{
    match q {
        SpecQuery::Base { values, proof } => lemma_rt_query_base(values, proof, pre, rest),
        SpecQuery::Extension { values, proof } => lemma_rt_query_ext(values, proof, pre, rest),
    }
}

#[verifier::spinoff_prover]
pub proof fn lemma_rt_queries(v: Seq<SpecQuery>)
    requires
        queries_wf(v),
    ensures
        forall|i: int| 0 <= i < v.len() ==> rt(#[trigger] v[i], f_query(), p_query()),
{
    assert forall|i: int| 0 <= i < v.len() implies rt(#[trigger] v[i], f_query(), p_query()) by {
        assert forall|pre: Seq<u8>, rest: Seq<u8>|
            #[trigger] p_query()(pre + flat(f_query()(v[i])) + rest, pre.len()) == Ok::<
                (SpecQuery, nat),
                DecodeError,
            >((v[i], pre.len() + flat(f_query()(v[i])).len())) by {
            lemma_rt_query_at(v[i], pre, rest);
        }
    }
}

#[verifier::spinoff_prover]
#[verifier::rlimit(40)]
pub proof fn lemma_rt_round_at(x: SpecRound, pre: Seq<u8>, rest: Seq<u8>)
    requires
        x.wf(),
    ensures
        parse_round(pre + flat(toks_round(x)) + rest, pre.len()) == Ok::<(SpecRound, nat), DecodeError>(
            (x, pre.len() + flat(toks_round(x)).len()),
        ),
{
    lemma_rt_chals(Mark::OodAnswer, x.ood_answers);
    lemma_rt_queries(x.queries);
    let t1 = t_digest(Mark::Plain, x.commitment);
    let t2 = toks_vec(x.ood_answers, f_chal(Mark::OodAnswer));
    let t3 = t_val(x.pow_witness);
    let t4 = toks_vec(x.queries, f_query());
    let t5 = toks_sumcheck(x.sumcheck);
    let (a, b, c, d, e) = (flat(t1), flat(t2), flat(t3), flat(t4), flat(t5));
    lemma_flat5(t1, t2, t3, t4, t5);
    lemma_cat5(pre, a, b, c, d, e, rest);
    lemma_rt_digest(Mark::Plain, x.commitment, pre, b + c + d + e + rest);
    lemma_rt_vec(x.ood_answers, f_chal(Mark::OodAnswer), p_chal(), pre + a, c + d + e + rest);
    lemma_rt_val(x.pow_witness, pre + a + b, d + e + rest);
    lemma_rt_vec(x.queries, f_query(), p_query(), pre + a + b + c, e + rest);
    lemma_rt_sumcheck_at(x.sumcheck, pre + a + b + c + d, rest);
    reveal(parse_round);
}

#[verifier::spinoff_prover]
pub proof fn lemma_rt_round(x: SpecRound)
    requires
        x.wf(),
    ensures
        rt(x, f_round(), p_round()),
{
    assert forall|pre: Seq<u8>, rest: Seq<u8>|
        #[trigger] p_round()(pre + flat(f_round()(x)) + rest, pre.len()) == Ok::<
            (SpecRound, nat),
            DecodeError,
        >((x, pre.len() + flat(f_round()(x)).len())) by {
        lemma_rt_round_at(x, pre, rest);
    }
}

#[verifier::spinoff_prover]
pub proof fn lemma_rt_final_poly(p: Seq<Challenge>)
    requires
        ok_chals(p),
        is_pow2(p.len()),
    ensures
        rt(p, f_final_poly(), p_final_poly()),
{
    lemma_rt_chals(Mark::Plain, p);
    assert forall|pre: Seq<u8>, rest: Seq<u8>|
        #[trigger] p_final_poly()(pre + flat(f_final_poly()(p)) + rest, pre.len()) == Ok::<
            (Seq<Challenge>, nat),
            DecodeError,
        >((p, pre.len() + flat(f_final_poly()(p)).len())) by {
        let marker = if p.len() > 0 {
            tok(Mark::FinalPoly, Seq::<u8>::empty())
        } else {
            Seq::<Tok>::empty()
        };
        if p.len() > 0 {
            lemma_flat_tok(Mark::FinalPoly, Seq::<u8>::empty());
        } else {
            crate::blob::lemma_flat_empty();
            assert(flat(marker) =~= Seq::<u8>::empty());
        }
        lemma_flat_append(marker, toks_vec(p, f_chal(Mark::Plain)));
        let a = flat(t_len(p.len()));
        let b = flat(toks_rep(p, f_chal(Mark::Plain)));
        lemma_flat_append(t_len(p.len()), toks_rep(p, f_chal(Mark::Plain)));
        assert(flat(toks_final_poly(p)) =~= a + b);
        lemma_cat2(pre, a, b, rest);
        lemma_rt_len(p.len(), pre, b + rest);
        lemma_rt_rep(p, f_chal(Mark::Plain), p_chal(), pre + a, rest);
    }
}

/// An optional section is read back.
#[verifier::spinoff_prover]
pub proof fn lemma_rt_option<T>(o: Option<T>, fs: spec_fn(T) -> Seq<Tok>, fp: Parser<T>, pre: Seq<u8>, rest: Seq<u8>)
    requires
        o matches Some(x) ==> rt(x, fs, fp),
    ensures
        parse_option(pre + flat(toks_option(o, fs)) + rest, pre.len(), fp) == Ok::<(Option<T>, nat), DecodeError>(
            (o, pre.len() + flat(toks_option(o, fs)).len()),
        ),
{
    match o {
        None => {
            lemma_rt_u8(0, pre, rest);
        },
        Some(x) => {
            let a = flat(t_u8(1));
            let b = flat(fs(x));
            lemma_flat_append(t_u8(1), fs(x));
            lemma_cat2(pre, a, b, rest);
            lemma_rt_u8(1, pre, b + rest);
            assert(fp((pre + a) + b + rest, (pre + a).len()) == Ok::<(T, nat), DecodeError>((x, (pre + a).len() + b.len())));
        },
    }
}

pub open spec fn toks_whir_head(w: SpecWhir) -> Seq<Tok> {
    t_digest(Mark::Plain, w.initial_commitment) + toks_vec(w.initial_ood_answers, f_chal(Mark::OodAnswer))
        + toks_sumcheck(w.initial_sumcheck) + toks_vec(w.rounds, f_round())
}

pub open spec fn toks_whir_tail(w: SpecWhir) -> Seq<Tok> {
    toks_option(w.final_poly, f_final_poly()) + t_val(w.final_pow_witness) + toks_vec(
        w.final_queries,
        f_query(),
    ) + toks_option(w.final_sumcheck, f_sumcheck())
}

#[verifier::spinoff_prover]
#[verifier::rlimit(40)]
proof fn lemma_rt_whir_head(w: SpecWhir, pre: Seq<u8>, rest: Seq<u8>)
    requires
        w.wf(),
    ensures
        parse_whir_head(pre + flat(toks_whir_head(w)) + rest, pre.len()) == Ok::<
            ((Seq<u64>, Seq<Challenge>, SpecSumcheck, Seq<SpecRound>), nat),
            DecodeError,
        >(
            (
                (w.initial_commitment, w.initial_ood_answers, w.initial_sumcheck, w.rounds),
                pre.len() + flat(toks_whir_head(w)).len(),
            ),
        ),
{
    lemma_rt_chals(Mark::OodAnswer, w.initial_ood_answers);
    assert forall|i: int| 0 <= i < w.rounds.len() implies rt(#[trigger] w.rounds[i], f_round(), p_round()) by {
        lemma_rt_round(w.rounds[i]);
    }
    let t1 = t_digest(Mark::Plain, w.initial_commitment);
    let t2 = toks_vec(w.initial_ood_answers, f_chal(Mark::OodAnswer));
    let t3 = toks_sumcheck(w.initial_sumcheck);
    let t4 = toks_vec(w.rounds, f_round());
    let (a, b, c, d) = (flat(t1), flat(t2), flat(t3), flat(t4));
    lemma_flat4(t1, t2, t3, t4);
    lemma_cat4(pre, a, b, c, d, rest);
    lemma_rt_digest(Mark::Plain, w.initial_commitment, pre, b + c + d + rest);
    lemma_rt_vec(w.initial_ood_answers, f_chal(Mark::OodAnswer), p_chal(), pre + a, c + d + rest);
    lemma_rt_sumcheck_at(w.initial_sumcheck, pre + a + b, d + rest);
    lemma_rt_vec(w.rounds, f_round(), p_round(), pre + a + b + c, rest);
    reveal(parse_whir_head);
}

#[verifier::spinoff_prover]
#[verifier::rlimit(40)]
proof fn lemma_rt_whir_tail(w: SpecWhir, pre: Seq<u8>, rest: Seq<u8>)
    requires
        w.wf(),
    ensures
        parse_whir_tail(pre + flat(toks_whir_tail(w)) + rest, pre.len()) == Ok::<
            ((Option<Seq<Challenge>>, u32, Seq<SpecQuery>, Option<SpecSumcheck>), nat),
            DecodeError,
        >(
            (
                (w.final_poly, w.final_pow_witness, w.final_queries, w.final_sumcheck),
                pre.len() + flat(toks_whir_tail(w)).len(),
            ),
        ),
{
    if let Some(p) = w.final_poly {
        lemma_rt_final_poly(p);
    }
    if let Some(sc) = w.final_sumcheck {
        lemma_rt_sumcheck(sc);
    }
    lemma_rt_queries(w.final_queries);
    let t1 = toks_option(w.final_poly, f_final_poly());
    let t2 = t_val(w.final_pow_witness);
    let t3 = toks_vec(w.final_queries, f_query());
    let t4 = toks_option(w.final_sumcheck, f_sumcheck());
    let (a, b, c, d) = (flat(t1), flat(t2), flat(t3), flat(t4));
    lemma_flat4(t1, t2, t3, t4);
    lemma_cat4(pre, a, b, c, d, rest);
    lemma_rt_option(w.final_poly, f_final_poly(), p_final_poly(), pre, b + c + d + rest);
    lemma_rt_val(w.final_pow_witness, pre + a, c + d + rest);
    lemma_rt_vec(w.final_queries, f_query(), p_query(), pre + a + b, d + rest);
    lemma_rt_option(w.final_sumcheck, f_sumcheck(), p_sumcheck(), pre + a + b + c, rest);
    reveal(parse_whir_tail);
}

#[verifier::spinoff_prover]
pub proof fn lemma_rt_whir_at(w: SpecWhir, pre: Seq<u8>, rest: Seq<u8>)
    requires
        w.wf(),
    ensures
        parse_whir(pre + flat(toks_whir(w)) + rest, pre.len()) == Ok::<(SpecWhir, nat), DecodeError>(
            (w, pre.len() + flat(toks_whir(w)).len()),
        ),
{
    let h = toks_whir_head(w);
    let t = toks_whir_tail(w);
    assert(toks_whir(w) =~= h + t);
    lemma_flat_append(h, t);
    lemma_cat2(pre, flat(h), flat(t), rest);
    lemma_rt_whir_head(w, pre, flat(t) + rest);
    lemma_rt_whir_tail(w, pre + flat(h), rest);
}

#[verifier::spinoff_prover]
pub proof fn lemma_rt_whir(w: SpecWhir)
    requires
        w.wf(),
    ensures
        rt(w, f_whir(), p_whir()),
{
    assert forall|pre: Seq<u8>, rest: Seq<u8>|
        #[trigger] p_whir()(pre + flat(f_whir()(w)) + rest, pre.len()) == Ok::<
            (SpecWhir, nat),
            DecodeError,
        >((w, pre.len() + flat(f_whir()(w)).len())) by {
        lemma_rt_whir_at(w, pre, rest);
    }
}

#[verifier::spinoff_prover]
pub proof fn lemma_rt_len_f(n: usize)
    ensures
        rt(n, crate::format::f_len(), crate::parse::p_len()),
{
    assert forall|pre: Seq<u8>, rest: Seq<u8>|
        #[trigger] crate::parse::p_len()(pre + flat(crate::format::f_len()(n)) + rest, pre.len())
            == Ok::<(usize, nat), DecodeError>(
            (n, pre.len() + flat(crate::format::f_len()(n)).len()),
        ) by {
        lemma_rt_len(n as nat, pre, rest);
    }
}

/// Every item of the blob's repeated parts reads back as itself.
proof fn lemma_blob_items_rt(public_inputs: Seq<Seq<u32>>, proof: SpecProof)
    requires
        public_inputs_wf(public_inputs),
        proof.wf(),
    ensures
        forall|i: int| 0 <= i < public_inputs.len() ==> rt(#[trigger] public_inputs[i], f_vals(), p_vals()),
        forall|i: int| 0 <= i < proof.log_bs.len() ==> rt(#[trigger] proof.log_bs[i], crate::format::f_len(), crate::parse::p_len()),
        forall|i: int| 0 <= i < proof.pcs.len() ==> rt(#[trigger] proof.pcs[i], f_whir(), p_whir()),
{
    assert forall|i: int| 0 <= i < public_inputs.len() implies rt(#[trigger] public_inputs[i], f_vals(), p_vals()) by {
        lemma_rt_vals(public_inputs[i]);
    }
    assert forall|i: int| 0 <= i < proof.log_bs.len() implies rt(#[trigger] proof.log_bs[i], crate::format::f_len(), crate::parse::p_len()) by {
        lemma_rt_len_f(proof.log_bs[i]);
    }
    assert forall|i: int| 0 <= i < proof.pcs.len() implies rt(#[trigger] proof.pcs[i], f_whir(), p_whir()) by {
        lemma_rt_whir(proof.pcs[i]);
    }
}

/// `parse_blob` on bytes whose parts each read as given.
proof fn lemma_parse_blob_steps(
    b: Seq<u8>,
    public_inputs: Seq<Seq<u32>>,
    proof: SpecProof,
    p2: nat,
    p3: nat,
    p4: nat,
    p5: nat,
    p6: nat,
)
    requires
        b.len() >= 4,
        b.subrange(0, 4) == blob_magic(),
        parse_u8(b, 4) == Ok::<(u8, nat), DecodeError>((1u8, 5nat)),
        parse_vec(b, 5, p_vals()) == Ok::<(Seq<Seq<u32>>, nat), DecodeError>((public_inputs, p2)),
        parse_vec(b, p2, crate::parse::p_len()) == Ok::<(Seq<usize>, nat), DecodeError>((proof.log_bs, p3)),
        parse_digest(b, p3) == Ok::<(Seq<u64>, nat), DecodeError>((proof.commitment, p4)),
        parse_piop(b, p4) == Ok::<(SpecPiop, nat), DecodeError>((proof.piop, p5)),
        parse_vec(b, p5, p_whir()) == Ok::<(Seq<SpecWhir>, nat), DecodeError>((proof.pcs, p6)),
    ensures
        parse_blob(b) == (if p6 == b.len() {
            Ok::<SpecBlob, DecodeError>(SpecBlob { public_inputs, proof })
        } else {
            Err::<SpecBlob, DecodeError>(DecodeError::TrailingBytes)
        }),
{
}

/// The front of a blob: magic, version, public inputs, `log_bs` and commitment.
spec fn front_toks(public_inputs: Seq<Seq<u32>>, proof: SpecProof) -> Seq<Tok> {
    plain(blob_magic()) + t_u8(1) + toks_vec(public_inputs, f_vals()) + toks_vec(
        proof.log_bs,
        crate::format::f_len(),
    ) + t_digest(Mark::Commitment, proof.commitment)
}

/// The front of a blob reads back, whatever follows it.
#[verifier::spinoff_prover]
#[verifier::rlimit(40)]
proof fn lemma_blob_front(public_inputs: Seq<Seq<u32>>, proof: SpecProof, tail: Seq<u8>)
    requires
        public_inputs_wf(public_inputs),
        proof.wf(),
    ensures
        ({
            let sx = flat(front_toks(public_inputs, proof)) + tail;
            let p2 = 5 + flat(toks_vec(public_inputs, f_vals())).len();
            let p3 = p2 + flat(toks_vec(proof.log_bs, crate::format::f_len())).len();
            &&& sx.len() >= 4
            &&& sx.subrange(0, 4) == blob_magic()
            &&& parse_u8(sx, 4) == Ok::<(u8, nat), DecodeError>((1u8, 5nat))
            &&& parse_vec(sx, 5, p_vals()) == Ok::<(Seq<Seq<u32>>, nat), DecodeError>((public_inputs, p2))
            &&& parse_vec(sx, p2, crate::parse::p_len()) == Ok::<(Seq<usize>, nat), DecodeError>(
                (proof.log_bs, p3),
            )
            &&& parse_digest(sx, p3) == Ok::<(Seq<u64>, nat), DecodeError>(
                (proof.commitment, flat(front_toks(public_inputs, proof)).len()),
            )
        }),
{
    lemma_blob_items_rt(public_inputs, proof);
    let t1 = plain(blob_magic());
    let t2 = t_u8(1);
    let t3 = toks_vec(public_inputs, f_vals());
    let t4 = toks_vec(proof.log_bs, crate::format::f_len());
    let t5 = t_digest(Mark::Commitment, proof.commitment);
    let (a, b, c, d, e) = (flat(t1), flat(t2), flat(t3), flat(t4), flat(t5));
    lemma_flat5(t1, t2, t3, t4, t5);
    let sx = flat(front_toks(public_inputs, proof)) + tail;
    assert(sx =~= a + b + (c + d + e + tail));
    assert(sx =~= (a + b) + c + (d + e + tail));
    assert(sx =~= (a + b + c) + d + (e + tail));
    assert(sx =~= (a + b + c + d) + e + tail);
    lemma_flat_tok(Mark::Plain, blob_magic());
    assert(sx.subrange(0, 4) =~= blob_magic());
    lemma_rt_u8(1, a, c + d + e + tail);
    lemma_rt_vec(public_inputs, f_vals(), p_vals(), a + b, d + e + tail);
    lemma_rt_vec(proof.log_bs, crate::format::f_len(), crate::parse::p_len(), a + b + c, e + tail);
    lemma_rt_digest(Mark::Commitment, proof.commitment, a + b + c + d, tail);
}

/// The PIOP and WHIR proofs of a blob read back after its front, whatever follows them.
#[verifier::spinoff_prover]
#[verifier::rlimit(40)]
proof fn lemma_blob_back(proof: SpecProof, front: Seq<u8>, extra: Seq<u8>)
    requires
        proof.wf(),
    ensures
        ({
            let f = flat(toks_piop(proof.piop));
            let g = flat(toks_vec(proof.pcs, f_whir()));
            let sx = front + f + g + extra;
            &&& parse_piop(sx, front.len()) == Ok::<(SpecPiop, nat), DecodeError>(
                (proof.piop, front.len() + f.len()),
            )
            &&& parse_vec(sx, front.len() + f.len(), p_whir()) == Ok::<(Seq<SpecWhir>, nat), DecodeError>(
                (proof.pcs, front.len() + f.len() + g.len()),
            )
        }),
{
    lemma_blob_items_rt(Seq::empty(), proof);
    let f = flat(toks_piop(proof.piop));
    let g = flat(toks_vec(proof.pcs, f_whir()));
    let sx = front + f + g + extra;
    assert(sx =~= front + f + (g + extra));
    lemma_rt_piop(proof.piop, front, g + extra);
    lemma_rt_vec(proof.pcs, f_whir(), p_whir(), front + f, extra);
}

/// What decoding the encoding of well-formed public inputs and a well-formed proof, followed by
/// `extra`, gives.
#[verifier::spinoff_prover]
#[verifier::rlimit(40)]
proof fn lemma_blob_decode_then(public_inputs: Seq<Seq<u32>>, proof: SpecProof, extra: Seq<u8>)
    requires
        public_inputs_wf(public_inputs),
        proof.wf(),
    ensures
        parse_blob(blob_bytes(public_inputs, proof) + extra) == (if extra.len() == 0 {
            Ok::<SpecBlob, DecodeError>(SpecBlob { public_inputs, proof })
        } else {
            Err::<SpecBlob, DecodeError>(DecodeError::TrailingBytes)
        }),
{
    let ft = front_toks(public_inputs, proof);
    let t6 = toks_piop(proof.piop);
    let t7 = toks_vec(proof.pcs, f_whir());
    assert(toks_blob(public_inputs, proof) == ft + t6 + t7);
    lemma_flat_append(ft + t6, t7);
    lemma_flat_append(ft, t6);
    let fr = flat(ft);
    let f = flat(t6);
    let g = flat(t7);
    let sx = blob_bytes(public_inputs, proof) + extra;
    assert(sx =~= fr + (f + g + extra));
    lemma_blob_front(public_inputs, proof, f + g + extra);
    assert(sx =~= fr + f + g + extra);
    lemma_blob_back(proof, fr, extra);
    let p2 = 5 + flat(toks_vec(public_inputs, f_vals())).len();
    let p3 = p2 + flat(toks_vec(proof.log_bs, crate::format::f_len())).len();
    lemma_parse_blob_steps(
        sx,
        public_inputs,
        proof,
        p2,
        p3,
        fr.len(),
        fr.len() + f.len(),
        fr.len() + f.len() + g.len(),
    );
}

/// Decoding the encoding of well-formed public inputs and a well-formed proof gives them back.
pub proof fn lemma_blob_roundtrip(public_inputs: Seq<Seq<u32>>, proof: SpecProof)
    requires
        public_inputs_wf(public_inputs),
        proof.wf(),
    ensures
        parse_blob(blob_bytes(public_inputs, proof)) == Ok::<SpecBlob, DecodeError>(
            SpecBlob { public_inputs, proof },
        ),
{
    lemma_blob_decode_then(public_inputs, proof, Seq::empty());
    assert(blob_bytes(public_inputs, proof) + Seq::<u8>::empty() =~= blob_bytes(public_inputs, proof));
}

/// A well-formed blob followed by any further bytes is refused as trailing bytes.
pub proof fn lemma_blob_trailing_rejected(public_inputs: Seq<Seq<u32>>, proof: SpecProof, extra: Seq<u8>)
    requires
        public_inputs_wf(public_inputs),
        proof.wf(),
        extra.len() > 0,
    ensures
        parse_blob(blob_bytes(public_inputs, proof) + extra) == Err::<SpecBlob, DecodeError>(
            DecodeError::TrailingBytes,
        ),
{
    lemma_blob_decode_then(public_inputs, proof, extra);
}

} // verus!
