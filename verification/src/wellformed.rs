//! Everything the blob reader accepts is well formed: every field value canonical, every
//! digest four words, every final polynomial a power of two long. Hence decoding, encoding and
//! decoding again gives the first decoding back.
use crate::blob::{parse_digest, parse_len_at, parse_u8, parse_val, DecodeError};
use crate::field::Challenge;
use crate::format::blob_bytes;
use crate::model::{
    fits, is_pow2, ok_chals, ok_vals, pair_wf, public_inputs_wf, queries_wf, Fraction,
    SpecBatchSumcheck, SpecBlob, SpecQuery, SpecRound, SpecSkip, SpecSumcheck, SpecWhir,
};
use crate::parse::{
    p_batch, p_chal, p_digest, p_final_poly, p_fraction, p_fractions, p_len, p_pair, p_poly,
    p_query, p_round, p_skip, p_sumcheck, p_val, p_vals, p_whir, parse_air, parse_batch, parse_blob,
    parse_fractional_sum, parse_option, parse_piop, parse_rep, parse_round, parse_sumcheck,
    parse_vec, parse_whir, parse_whir_head, parse_whir_tail, Parser,
};
use crate::roundtrip::lemma_blob_roundtrip;
use vstd::prelude::*;

verus! {

spec fn okf_val() -> spec_fn(u32) -> bool {
    |v: u32| crate::field::is_canonical_val(v)
}

spec fn okf_chal() -> spec_fn(Challenge) -> bool {
    |c: Challenge| c.is_canonical()
}

spec fn okf_digest() -> spec_fn(Seq<u64>) -> bool {
    |d: Seq<u64>| d.len() == 4
}

spec fn okf_vals() -> spec_fn(Seq<u32>) -> bool {
    |v: Seq<u32>| ok_vals(v)
}

spec fn okf_poly() -> spec_fn(Seq<Challenge>) -> bool {
    |v: Seq<Challenge>| ok_chals(v)
}

spec fn okf_fraction() -> spec_fn(Fraction) -> bool {
    |f: Fraction| f.wf()
}

spec fn okf_fractions() -> spec_fn(Seq<Fraction>) -> bool {
    |v: Seq<Fraction>| crate::model::ok_fractions(v)
}

spec fn okf_batch() -> spec_fn(SpecBatchSumcheck) -> bool {
    |x: SpecBatchSumcheck| x.wf()
}

spec fn okf_skip() -> spec_fn(SpecSkip) -> bool {
    |x: SpecSkip| x.wf()
}

spec fn okf_pair() -> spec_fn((Challenge, Challenge)) -> bool {
    |e: (Challenge, Challenge)| pair_wf(e)
}

spec fn okf_sumcheck() -> spec_fn(SpecSumcheck) -> bool {
    |x: SpecSumcheck| x.wf()
}

spec fn okf_query() -> spec_fn(SpecQuery) -> bool {
    |x: SpecQuery| x.wf()
}

spec fn okf_round() -> spec_fn(SpecRound) -> bool {
    |x: SpecRound| x.wf()
}

spec fn okf_whir() -> spec_fn(SpecWhir) -> bool {
    |x: SpecWhir| x.wf()
}

spec fn okf_len() -> spec_fn(usize) -> bool {
    |_n: usize| true
}

/// Every item that `f` reads satisfies `ok`.
pub open spec fn yields<T>(f: Parser<T>, ok: spec_fn(T) -> bool) -> bool {
    forall|b: Seq<u8>, p: nat| #[trigger] f(b, p) is Ok ==> ok(f(b, p)->Ok_0.0)
}

/// `n` items read by a reader that yields only items satisfying `ok` all satisfy it.
proof fn lemma_rep_yields<T>(b: Seq<u8>, p: nat, n: nat, f: Parser<T>, ok: spec_fn(T) -> bool)
    requires
        yields(f, ok),
        parse_rep(b, p, n, f) is Ok,
    ensures
        parse_rep(b, p, n, f)->Ok_0.0.len() == n,
        forall|i: int| 0 <= i < n ==> ok(#[trigger] parse_rep(b, p, n, f)->Ok_0.0[i]),
    decreases n,
{
    if n > 0 {
        lemma_rep_yields(b, p, (n - 1) as nat, f, ok);
        let q = parse_rep(b, p, (n - 1) as nat, f)->Ok_0.1;
        assert(f(b, q) is Ok);
    }
}

/// A length-prefixed list read with such a reader fits in a `usize` and satisfies `ok`
/// item by item.
proof fn lemma_vec_yields<T>(b: Seq<u8>, p: nat, f: Parser<T>, ok: spec_fn(T) -> bool)
    requires
        yields(f, ok),
        parse_vec(b, p, f) is Ok,
    ensures
        fits(parse_vec(b, p, f)->Ok_0.0.len()),
        forall|i: int|
            0 <= i < parse_vec(b, p, f)->Ok_0.0.len() ==> ok(#[trigger] parse_vec(b, p, f)->Ok_0.0[i]),
{
    let (n, q) = parse_len_at(b, p)->Ok_0;
    lemma_rep_yields(b, q, n as nat, f, ok);
}

proof fn lemma_yields_val()
    ensures
        yields(p_val(), okf_val()),
{
}

proof fn lemma_yields_chal()
    ensures
        yields(p_chal(), okf_chal()),
{
}

proof fn lemma_yields_digest()
    ensures
        yields(p_digest(), okf_digest()),
{
}

proof fn lemma_yields_vals()
    ensures
        yields(p_vals(), okf_vals()),
{
    lemma_yields_val();
    assert forall|b: Seq<u8>, p: nat| #[trigger] p_vals()(b, p) is Ok implies ok_vals(
        p_vals()(b, p)->Ok_0.0,
    ) by {
        lemma_vec_yields(b, p, p_val(), okf_val());
    }
}

proof fn lemma_yields_poly()
    ensures
        yields(p_poly(), okf_poly()),
{
    lemma_yields_chal();
    assert forall|b: Seq<u8>, p: nat| #[trigger] p_poly()(b, p) is Ok implies ok_chals(
        p_poly()(b, p)->Ok_0.0,
    ) by {
        lemma_vec_yields(b, p, p_chal(), okf_chal());
    }
}

proof fn lemma_yields_fractions()
    ensures
        yields(p_fractions(), okf_fractions()),
{
    assert(yields(p_fraction(), okf_fraction()));
    assert forall|b: Seq<u8>, p: nat| #[trigger] p_fractions()(b, p) is Ok implies crate::model::ok_fractions(
        p_fractions()(b, p)->Ok_0.0,
    ) by {
        lemma_vec_yields(b, p, p_fraction(), okf_fraction());
    }
}

proof fn lemma_yields_batch()
    ensures
        yields(p_batch(), okf_batch()),
{
    lemma_yields_poly();
    assert forall|b: Seq<u8>, p: nat| #[trigger] p_batch()(b, p) is Ok implies p_batch()(b, p)->Ok_0.0.wf() by {
        lemma_vec_yields(b, p, p_poly(), okf_poly());
        let q = parse_vec(b, p, p_poly())->Ok_0.1;
        lemma_vec_yields(b, q, p_poly(), okf_poly());
    }
}

proof fn lemma_fractional_sum_wf(b: Seq<u8>, p: nat)
    requires
        parse_fractional_sum(b, p) is Ok,
    ensures
        parse_fractional_sum(b, p)->Ok_0.0.wf(),
{
    reveal(parse_fractional_sum);
    lemma_yields_fractions();
    lemma_yields_batch();
    lemma_vec_yields(b, p, p_fractions(), okf_fractions());
    let q = parse_vec(b, p, p_fractions())->Ok_0.1;
    lemma_vec_yields(b, q, p_batch(), okf_batch());
}

proof fn lemma_yields_skip()
    ensures
        yields(p_skip(), okf_skip()),
{
    lemma_yields_chal();
    assert forall|b: Seq<u8>, p: nat| #[trigger] p_skip()(b, p) is Ok implies p_skip()(b, p)->Ok_0.0.wf() by {
        let q = parse_len_at(b, p)->Ok_0.1;
        lemma_vec_yields(b, q, p_chal(), okf_chal());
        let r = parse_vec(b, q, p_chal())->Ok_0.1;
        lemma_vec_yields(b, r, p_chal(), okf_chal());
    }
}

proof fn lemma_air_wf(b: Seq<u8>, p: nat)
    requires
        parse_air(b, p) is Ok,
    ensures
        parse_air(b, p)->Ok_0.0.wf(),
{
    reveal(parse_air);
    lemma_yields_skip();
    lemma_yields_batch();
    lemma_vec_yields(b, p, p_skip(), okf_skip());
    let q = parse_vec(b, p, p_skip())->Ok_0.1;
    assert(p_batch()(b, q) is Ok);
    let r = parse_batch(b, q)->Ok_0.1;
    assert(p_batch()(b, r) is Ok);
}

proof fn lemma_piop_wf(b: Seq<u8>, p: nat)
    requires
        parse_piop(b, p) is Ok,
    ensures
        parse_piop(b, p)->Ok_0.0.wf(),
{
    lemma_fractional_sum_wf(b, p);
    let q = parse_fractional_sum(b, p)->Ok_0.1;
    lemma_air_wf(b, q);
}

proof fn lemma_yields_sumcheck()
    ensures
        yields(p_sumcheck(), okf_sumcheck()),
{
    lemma_yields_val();
    assert(yields(p_pair(), okf_pair()));
    assert forall|b: Seq<u8>, p: nat| #[trigger] p_sumcheck()(b, p) is Ok implies p_sumcheck()(b, p)->Ok_0.0.wf() by {
        lemma_vec_yields(b, p, p_pair(), okf_pair());
        let q = parse_vec(b, p, p_pair())->Ok_0.1;
        lemma_vec_yields(b, q, p_val(), okf_val());
    }
}

proof fn lemma_yields_query()
    ensures
        yields(p_query(), okf_query()),
{
    lemma_yields_val();
    lemma_yields_chal();
    lemma_yields_digest();
    assert forall|b: Seq<u8>, p: nat| #[trigger] p_query()(b, p) is Ok implies p_query()(b, p)->Ok_0.0.wf() by {
        let (tag, q) = parse_u8(b, p)->Ok_0;
        if tag == 0 {
            lemma_vec_yields(b, q, p_val(), okf_val());
            let r = parse_vec(b, q, p_val())->Ok_0.1;
            lemma_vec_yields(b, r, p_digest(), okf_digest());
        } else {
            lemma_vec_yields(b, q, p_chal(), okf_chal());
            let r = parse_vec(b, q, p_chal())->Ok_0.1;
            lemma_vec_yields(b, r, p_digest(), okf_digest());
        }
    }
}

proof fn lemma_yields_round()
    ensures
        yields(p_round(), okf_round()),
{
    lemma_yields_chal();
    lemma_yields_query();
    lemma_yields_sumcheck();
    assert forall|b: Seq<u8>, p: nat| #[trigger] p_round()(b, p) is Ok implies p_round()(b, p)->Ok_0.0.wf() by {
        reveal(parse_round);
        let p1 = parse_digest(b, p)->Ok_0.1;
        lemma_vec_yields(b, p1, p_chal(), okf_chal());
        let p2 = parse_vec(b, p1, p_chal())->Ok_0.1;
        let p3 = parse_val(b, p2)->Ok_0.1;
        lemma_vec_yields(b, p3, p_query(), okf_query());
        let p4 = parse_vec(b, p3, p_query())->Ok_0.1;
        assert(p_sumcheck()(b, p4) is Ok);
    }
}

proof fn lemma_whir_wf(b: Seq<u8>, p: nat)
    requires
        parse_whir(b, p) is Ok,
    ensures
        parse_whir(b, p)->Ok_0.0.wf(),
{
    lemma_yields_chal();
    lemma_yields_sumcheck();
    lemma_yields_round();
    lemma_yields_query();
    let p4 = parse_whir_head(b, p)->Ok_0.1;
    assert(parse_whir_head(b, p)->Ok_0.0.0.len() == 4
        && ok_chals(parse_whir_head(b, p)->Ok_0.0.1)
        && parse_whir_head(b, p)->Ok_0.0.2.wf()
        && fits(parse_whir_head(b, p)->Ok_0.0.3.len())
        && forall|i: int| 0 <= i < parse_whir_head(b, p)->Ok_0.0.3.len() ==> (#[trigger] parse_whir_head(b, p)->Ok_0.0.3[i]).wf()) by {
        reveal(parse_whir_head);
        let p1 = parse_digest(b, p)->Ok_0.1;
        lemma_vec_yields(b, p1, p_chal(), okf_chal());
        let p2 = parse_vec(b, p1, p_chal())->Ok_0.1;
        assert(p_sumcheck()(b, p2) is Ok);
        let p3 = parse_sumcheck(b, p2)->Ok_0.1;
        lemma_vec_yields(b, p3, p_round(), okf_round());
    }
    let tail = parse_whir_tail(b, p4)->Ok_0.0;
    assert(match tail.0 {
        Some(poly) => ok_chals(poly) && is_pow2(poly.len()),
        None => true,
    } && crate::field::is_canonical_val(tail.1) && queries_wf(tail.2) && match tail.3 {
        Some(s) => s.wf(),
        None => true,
    }) by {
        reveal(parse_whir_tail);
        let (tag, q) = parse_u8(b, p4)->Ok_0;
        if tag == 1 {
            let (n, r) = parse_len_at(b, q)->Ok_0;
            lemma_rep_yields(b, r, n as nat, p_chal(), okf_chal());
        }
        let p5 = parse_option(b, p4, p_final_poly())->Ok_0.1;
        let p6 = parse_val(b, p5)->Ok_0.1;
        lemma_vec_yields(b, p6, p_query(), okf_query());
        let p7 = parse_vec(b, p6, p_query())->Ok_0.1;
        let (tag2, q2) = parse_u8(b, p7)->Ok_0;
        if tag2 == 1 {
            assert(p_sumcheck()(b, q2) is Ok);
        }
    }
}

/// A blob the reader accepts holds well-formed public inputs and a well-formed proof, so
/// encoding them and decoding again gives them back: the decoder's output is a fixed point of
/// encoding then decoding. (Where every limb of the blob is below the modulus, encoding gives
/// back the very bytes read: `strict::lemma_canonical_blob_reencodes`.)
pub proof fn lemma_decoded_reencodes(b: Seq<u8>)
    requires
        parse_blob(b) is Ok,
    ensures
        public_inputs_wf(parse_blob(b)->Ok_0.public_inputs),
        parse_blob(b)->Ok_0.proof.wf(),
        parse_blob(
            blob_bytes(parse_blob(b)->Ok_0.public_inputs, parse_blob(b)->Ok_0.proof),
        ) == Ok::<SpecBlob, DecodeError>(parse_blob(b)->Ok_0),
{
    lemma_yields_vals();
    assert(yields(p_len(), okf_len()));
    assert forall|bb: Seq<u8>, p: nat| #[trigger] p_whir()(bb, p) is Ok implies p_whir()(bb, p)->Ok_0.0.wf() by {
        lemma_whir_wf(bb, p);
    }
    let p1 = 5nat;
    lemma_vec_yields(b, p1, p_vals(), okf_vals());
    let p2 = parse_vec(b, p1, p_vals())->Ok_0.1;
    lemma_vec_yields(b, p2, p_len(), okf_len());
    let p3 = parse_vec(b, p2, p_len())->Ok_0.1;
    let p4 = parse_digest(b, p3)->Ok_0.1;
    lemma_piop_wf(b, p4);
    let p5 = parse_piop(b, p4)->Ok_0.1;
    lemma_vec_yields(b, p5, p_whir(), okf_whir());
    let v = parse_blob(b)->Ok_0;
    lemma_blob_roundtrip(v.public_inputs, v.proof);
}

} // verus!
