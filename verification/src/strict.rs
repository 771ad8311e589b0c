//! The canonical reading of a proof blob: the decoder's reading with one more demand, that
//! every base-field limb it reads be below the KoalaBear modulus. Where it succeeds, the
//! decoder gives the same result, and encoding that result gives back exactly the bytes read;
//! and the encoding of every well-formed proof is read canonically.
use crate::blob::{
    flat, lemma_flat_append, lemma_flat_empty, lemma_parse_len_canonical, lemma_single_tok,
    parse_digest, parse_len, parse_len_at, parse_u8, varuint, varuint_end,
    DecodeError, ProofBlobOffsets, Tok,
};
use crate::bytes::{be32, be32_at, lemma_be32_of_value};
use crate::field::{Challenge, KOALA_BEAR_PRIME};
use crate::model::{
    is_pow2, Fraction, SpecAir, SpecBatchSumcheck, SpecBlob, SpecFractionalSum, SpecPiop,
    SpecProof, SpecQuery, SpecRound, SpecSkip, SpecSumcheck, SpecWhir,
};
use crate::format::{blob_bytes, blob_magic, lemma_toks_rep_push, t_len, toks_option, toks_rep, toks_vec};
use crate::keccak::{digest_bytes, lemma_digest_bytes_of_words};
use crate::parse::{parse_blob, parse_option, parse_rep, parse_vec, Parser};
use vstd::prelude::*;

verus! {

/// A canonical reader of one item: the item and the position after it, or `None` where the
/// bytes are refused.
pub type CParser<T> = spec_fn(Seq<u8>, nat) -> Option<(T, nat)>;

/// The successful outcome of a read, if any.
pub open spec fn ok_of<T>(r: Result<(T, nat), DecodeError>) -> Option<(T, nat)> {
    match r {
        Ok(v) => Some(v),
        Err(_) => None,
    }
}

/// `n` items read canonically one after another from position `p`.
pub open spec fn canon_rep<T>(b: Seq<u8>, p: nat, n: nat, c: CParser<T>) -> Option<(Seq<T>, nat)>
    decreases n,
{
    if n == 0 {
        Some((seq![], p))
    } else {
        match canon_rep(b, p, (n - 1) as nat, c) {
            None => None,
            Some((vs, q)) => match c(b, q) {
                None => None,
                Some((v, r)) => Some((vs.push(v), r)),
            },
        }
    }
}

/// A length-prefixed list read canonically.
pub open spec fn canon_vec<T>(b: Seq<u8>, p: nat, c: CParser<T>) -> Option<(Seq<T>, nat)> {
    match ok_of(parse_len_at(b, p)) {
        None => None,
        Some((n, q)) => canon_rep(b, q, n as nat, c),
    }
}

/// An optional section read canonically.
pub open spec fn canon_option<T>(b: Seq<u8>, p: nat, c: CParser<T>) -> Option<(Option<T>, nat)> {
    match ok_of(parse_u8(b, p)) {
        None => None,
        Some((tag, q)) => if tag == 0 {
            Some((None, q))
        } else if tag == 1 {
            match c(b, q) {
                None => None,
                Some((v, r)) => Some((Some(v), r)),
            }
        } else {
            None
        },
    }
}

/// A base-field value whose four big-endian bytes are below the modulus.
pub open spec fn canon_val(b: Seq<u8>, p: nat) -> Option<(u32, nat)> {
    if p + 4 <= b.len() && be32_at(b, p as int) < KOALA_BEAR_PRIME {
        Some((be32_at(b, p as int), p + 4))
    } else {
        None
    }
}

/// An extension-field element whose four limbs are below the modulus.
pub open spec fn canon_chal(b: Seq<u8>, p: nat) -> Option<(Challenge, nat)> {
    match canon_val(b, p) {
        None => None,
        Some((c0, p1)) => match canon_val(b, p1) {
            None => None,
            Some((c1, p2)) => match canon_val(b, p2) {
                None => None,
                Some((c2, p3)) => match canon_val(b, p3) {
                    None => None,
                    Some((c3, p4)) => Some((Challenge { c0, c1, c2, c3 }, p4)),
                },
            },
        },
    }
}

pub open spec fn c_val() -> CParser<u32> {
    |b: Seq<u8>, p: nat| canon_val(b, p)
}

pub open spec fn c_len() -> CParser<usize> {
    |b: Seq<u8>, p: nat| ok_of(parse_len_at(b, p))
}

pub open spec fn c_chal() -> CParser<Challenge> {
    |b: Seq<u8>, p: nat| canon_chal(b, p)
}

pub open spec fn c_digest() -> CParser<Seq<u64>> {
    |b: Seq<u8>, p: nat| ok_of(parse_digest(b, p))
}

/// Where `c` succeeds at `p`, `f` gives the same item and position, and the bytes read are
/// the fields `g` writes for the item.
pub open spec fn reads_at<T>(
    c: CParser<T>,
    f: Parser<T>,
    g: spec_fn(T) -> Seq<Tok>,
    b: Seq<u8>,
    p: nat,
) -> bool {
    c(b, p) is Some ==> {
        let (x, q) = c(b, p)->0;
        &&& f(b, p) == Ok::<(T, nat), DecodeError>((x, q))
        &&& p <= q <= b.len()
        &&& b.subrange(p as int, q as int) == flat(g(x))
    }
}

/// `c` reads canonically what `f` reads, and only bytes that `g` writes for what it reads.
pub open spec fn canon_reads<T>(c: CParser<T>, f: Parser<T>, g: spec_fn(T) -> Seq<Tok>) -> bool {
    forall|b: Seq<u8>, p: nat| #[trigger] reads_at(c, f, g, b, p)
}

/// Two readings side by side make the bytes of both field sequences.
pub proof fn lemma_cat(b: Seq<u8>, p: nat, q: nat, r: nat, t1: Seq<Tok>, t2: Seq<Tok>)
    requires
        p <= q <= r <= b.len(),
        b.subrange(p as int, q as int) == flat(t1),
        b.subrange(q as int, r as int) == flat(t2),
    ensures
        b.subrange(p as int, r as int) == flat(t1 + t2),
{
    lemma_flat_append(t1, t2);
    assert(b.subrange(p as int, r as int) =~= b.subrange(p as int, q as int) + b.subrange(
        q as int,
        r as int,
    ));
}

/// A single field's bytes.
pub proof fn lemma_flat_one(t: Tok)
    ensures
        flat(seq![t]) == t.bytes,
{
    lemma_single_tok(ProofBlobOffsets::none(), 0, t);
}

/// The index a varuint ends at lies within the bytes.
proof fn lemma_varuint_end_bound(s: Seq<u8>, i: nat)
    requires
        varuint_end(s, i) is Some,
    ensures
        i <= varuint_end(s, i)->0 < s.len(),
    decreases 10 - i,
{
    if !(i >= 10 || i >= s.len()) && s[i as int] & 0x80u8 != 0 {
        lemma_varuint_end_bound(s, i + 1);
    }
}

/// A length is read from exactly its canonical encoding.
pub proof fn lemma_len_bytes(b: Seq<u8>, p: nat)
    requires
        parse_len_at(b, p) is Ok,
    ensures
        ({
            let (n, q) = parse_len_at(b, p)->Ok_0;
            &&& p <= q <= b.len()
            &&& b.subrange(p as int, q as int) == flat(t_len(n as nat))
        }),
{
    reveal(parse_len_at);
    let s = b.subrange(p as int, b.len() as int);
    lemma_parse_len_canonical(s);
    let (v, k) = parse_len(s)->Ok_0;
    lemma_varuint_end_bound(s, 0);
    lemma_flat_one(Tok { mark: crate::blob::Mark::Plain, bytes: varuint(v as u64) });
    assert(b.subrange(p as int, (p + k) as int) =~= s.subrange(0, k as int));
}

pub proof fn lemma_canon_val()
    ensures
        canon_reads(c_val(), crate::parse::p_val(), crate::format::f_val()),
{
    assert forall|b: Seq<u8>, p: nat| #[trigger] reads_at(c_val(), crate::parse::p_val(), crate::format::f_val(), b, p) by {
        if c_val()(b, p) is Some {
            lemma_be32_of_value(b, p as int);
            lemma_flat_one(Tok { mark: crate::blob::Mark::Plain, bytes: be32(be32_at(b, p as int)) });
        }
    }
}

pub proof fn lemma_canon_chal(m: crate::blob::Mark)
    ensures
        canon_reads(c_chal(), crate::parse::p_chal(), crate::format::f_chal(m)),
{
    assert forall|b: Seq<u8>, p: nat| #[trigger] reads_at(c_chal(), crate::parse::p_chal(), crate::format::f_chal(m), b, p) by {
        if c_chal()(b, p) is Some {
            let pi = p as int;
            lemma_be32_of_value(b, pi);
            lemma_be32_of_value(b, pi + 4);
            lemma_be32_of_value(b, pi + 8);
            lemma_be32_of_value(b, pi + 12);
            let x = (c_chal()(b, p)->0).0;
            lemma_flat_one(Tok { mark: m, bytes: crate::blob::challenge_bytes(x) });
            assert(b.subrange(pi, pi + 16) =~= b.subrange(pi, pi + 4) + b.subrange(pi + 4, pi + 8)
                + b.subrange(pi + 8, pi + 12) + b.subrange(pi + 12, pi + 16));
        }
    }
}

pub proof fn lemma_canon_len()
    ensures
        canon_reads(c_len(), crate::parse::p_len(), crate::format::f_len()),
{
    assert forall|b: Seq<u8>, p: nat| #[trigger] reads_at(c_len(), crate::parse::p_len(), crate::format::f_len(), b, p) by {
        if c_len()(b, p) is Some {
            lemma_len_bytes(b, p);
        }
    }
}

/// A digest is read from exactly its bytes32 form.
pub proof fn lemma_digest_read(b: Seq<u8>, p: nat, m: crate::blob::Mark)
    requires
        parse_digest(b, p) is Ok,
    ensures
        ({
            let (d, q) = parse_digest(b, p)->Ok_0;
            &&& p <= q <= b.len()
            &&& b.subrange(p as int, q as int) == flat(crate::format::t_digest(m, d))
        }),
{
    let s = b.subrange(p as int, p + 32int);
    lemma_digest_bytes_of_words(s);
    lemma_flat_one(Tok { mark: m, bytes: digest_bytes(crate::keccak::digest_words(s)) });
}

pub proof fn lemma_canon_sibling()
    ensures
        canon_reads(c_digest(), crate::parse::p_digest(), crate::format::f_sibling()),
{
    assert forall|b: Seq<u8>, p: nat| #[trigger] reads_at(c_digest(), crate::parse::p_digest(), crate::format::f_sibling(), b, p) by {
        if c_digest()(b, p) is Some {
            lemma_digest_read(b, p, crate::blob::Mark::MerkleSibling);
        }
    }
}

/// Items read canonically one after another are what the decoder reads, from exactly the
/// bytes of their fields.
pub proof fn lemma_canon_rep<T>(
    b: Seq<u8>,
    p: nat,
    n: nat,
    c: CParser<T>,
    f: Parser<T>,
    g: spec_fn(T) -> Seq<Tok>,
)
    requires
        canon_reads(c, f, g),
        canon_rep(b, p, n, c) is Some,
        p <= b.len(),
    ensures
        ({
            let (xs, q) = canon_rep(b, p, n, c)->0;
            &&& parse_rep(b, p, n, f) == Ok::<(Seq<T>, nat), DecodeError>((xs, q))
            &&& xs.len() == n
            &&& p <= q <= b.len()
            &&& b.subrange(p as int, q as int) == flat(toks_rep(xs, g))
        }),
    decreases n,
{
    if n == 0 {
        reveal(toks_rep);
        lemma_flat_empty();
        assert(b.subrange(p as int, p as int) =~= Seq::<u8>::empty());
        assert(toks_rep(Seq::<T>::empty(), g) =~= Seq::<Tok>::empty());
    } else {
        lemma_canon_rep(b, p, (n - 1) as nat, c, f, g);
        let (vs, q) = canon_rep(b, p, (n - 1) as nat, c)->0;
        assert(reads_at(c, f, g, b, q));
        let (v, r) = c(b, q)->0;
        lemma_toks_rep_push(vs, g, v);
        lemma_cat(b, p, q, r, toks_rep(vs, g), g(v));
    }
}

/// A list read canonically is what the decoder reads, from exactly the bytes of its fields.
pub proof fn lemma_canon_vec<T>(b: Seq<u8>, p: nat, c: CParser<T>, f: Parser<T>, g: spec_fn(T) -> Seq<Tok>)
    requires
        canon_reads(c, f, g),
        canon_vec(b, p, c) is Some,
    ensures
        ({
            let (xs, q) = canon_vec(b, p, c)->0;
            &&& parse_vec(b, p, f) == Ok::<(Seq<T>, nat), DecodeError>((xs, q))
            &&& p <= q <= b.len()
            &&& b.subrange(p as int, q as int) == flat(toks_vec(xs, g))
        }),
{
    lemma_len_bytes(b, p);
    let (n, q) = parse_len_at(b, p)->Ok_0;
    lemma_canon_rep(b, q, n as nat, c, f, g);
    let (xs, r) = canon_rep(b, q, n as nat, c)->0;
    lemma_cat(b, p, q, r, t_len(n as nat), toks_rep(xs, g));
}

/// An optional section read canonically is what the decoder reads, from exactly the bytes of
/// its fields.
pub proof fn lemma_canon_option<T>(b: Seq<u8>, p: nat, c: CParser<T>, f: Parser<T>, g: spec_fn(T) -> Seq<Tok>)
    requires
        canon_reads(c, f, g),
        canon_option(b, p, c) is Some,
    ensures
        ({
            let (o, q) = canon_option(b, p, c)->0;
            &&& parse_option(b, p, f) == Ok::<(Option<T>, nat), DecodeError>((o, q))
            &&& p <= q <= b.len()
            &&& b.subrange(p as int, q as int) == flat(toks_option(o, g))
        }),
{
    let tag = b[p as int];
    lemma_flat_one(Tok { mark: crate::blob::Mark::Plain, bytes: seq![tag] });
    assert(b.subrange(p as int, p + 1int) =~= seq![tag]);
    if tag == 1 {
        assert(reads_at(c, f, g, b, p + 1));
        let (v, r) = c(b, p + 1)->0;
        lemma_cat(b, p, p + 1, r, crate::format::t_u8(1), g(v));
    }
}

// ---------------------------------------------------------------------------------------------
// Canonical readings of the proof sections, in the decoder's order.
// ---------------------------------------------------------------------------------------------

pub open spec fn c_poly() -> CParser<Seq<Challenge>> {
    |b: Seq<u8>, p: nat| canon_vec(b, p, c_chal())
}

pub open spec fn c_vals() -> CParser<Seq<u32>> {
    |b: Seq<u8>, p: nat| canon_vec(b, p, c_val())
}

pub open spec fn canon_fraction(b: Seq<u8>, p: nat) -> Option<(Fraction, nat)> {
    match c_chal()(b, p) {
        None => None,
        Some((numer, q)) => match c_chal()(b, q) {
            None => None,
            Some((denom, r)) => Some((Fraction { numer, denom }, r)),
        },
    }
}

pub open spec fn c_fraction() -> CParser<Fraction> {
    |b: Seq<u8>, p: nat| canon_fraction(b, p)
}

pub open spec fn c_fractions() -> CParser<Seq<Fraction>> {
    |b: Seq<u8>, p: nat| canon_vec(b, p, c_fraction())
}

pub open spec fn canon_batch(b: Seq<u8>, p: nat) -> Option<(SpecBatchSumcheck, nat)> {
    match canon_vec(b, p, c_poly()) {
        None => None,
        Some((compressed_round_polys, q)) => match canon_vec(b, q, c_poly()) {
            None => None,
            Some((evals, r)) => Some((SpecBatchSumcheck { compressed_round_polys, evals }, r)),
        },
    }
}

pub open spec fn c_batch() -> CParser<SpecBatchSumcheck> {
    |b: Seq<u8>, p: nat| canon_batch(b, p)
}

pub open spec fn canon_fractional_sum(b: Seq<u8>, p: nat) -> Option<(SpecFractionalSum, nat)> {
    match canon_vec(b, p, c_fractions()) {
        None => None,
        Some((sums, q)) => match canon_vec(b, q, c_batch()) {
            None => None,
            Some((layers, r)) => Some((SpecFractionalSum { sums, layers }, r)),
        },
    }
}

pub open spec fn canon_skip(b: Seq<u8>, p: nat) -> Option<(SpecSkip, nat)> {
    match c_len()(b, p) {
        None => None,
        Some((skip_rounds, q)) => match canon_vec(b, q, c_chal()) {
            None => None,
            Some((zero_check_round_poly, r)) => match canon_vec(b, r, c_chal()) {
                None => None,
                Some((eval_check_round_poly, t)) => Some(
                    (SpecSkip { skip_rounds, zero_check_round_poly, eval_check_round_poly }, t),
                ),
            },
        },
    }
}

pub open spec fn c_skip() -> CParser<SpecSkip> {
    |b: Seq<u8>, p: nat| canon_skip(b, p)
}

pub open spec fn canon_air(b: Seq<u8>, p: nat) -> Option<(SpecAir, nat)> {
    match canon_vec(b, p, c_skip()) {
        None => None,
        Some((univariate_skips, q)) => match c_batch()(b, q) {
            None => None,
            Some((regular, r)) => match c_batch()(b, r) {
                None => None,
                Some((univariate_eval_check, t)) => Some(
                    (SpecAir { univariate_skips, regular, univariate_eval_check }, t),
                ),
            },
        },
    }
}

pub open spec fn canon_piop(b: Seq<u8>, p: nat) -> Option<(SpecPiop, nat)> {
    match canon_fractional_sum(b, p) {
        None => None,
        Some((fractional_sum, q)) => match canon_air(b, q) {
            None => None,
            Some((air, r)) => Some((SpecPiop { fractional_sum, air }, r)),
        },
    }
}

proof fn lemma_canon_sc_poly()
    ensures
        canon_reads(c_poly(), crate::parse::p_poly(), crate::format::f_sc_poly()),
{
    lemma_canon_chal(crate::blob::Mark::SumcheckCoeff);
    assert forall|b: Seq<u8>, p: nat| #[trigger] reads_at(c_poly(), crate::parse::p_poly(), crate::format::f_sc_poly(), b, p) by {
        if c_poly()(b, p) is Some {
            lemma_canon_vec(b, p, c_chal(), crate::parse::p_chal(), crate::format::f_chal(crate::blob::Mark::SumcheckCoeff));
        }
    }
}

proof fn lemma_canon_vals()
    ensures
        canon_reads(c_vals(), crate::parse::p_vals(), crate::format::f_vals()),
{
    lemma_canon_val();
    assert forall|b: Seq<u8>, p: nat| #[trigger] reads_at(c_vals(), crate::parse::p_vals(), crate::format::f_vals(), b, p) by {
        if c_vals()(b, p) is Some {
            lemma_canon_vec(b, p, c_val(), crate::parse::p_val(), crate::format::f_val());
        }
    }
}

proof fn lemma_canon_fraction()
    ensures
        canon_reads(c_fraction(), crate::parse::p_fraction(), crate::format::f_fraction()),
{
    lemma_canon_chal(crate::blob::Mark::SumcheckCoeff);
    assert forall|b: Seq<u8>, p: nat| #[trigger] reads_at(c_fraction(), crate::parse::p_fraction(), crate::format::f_fraction(), b, p) by {
        if c_fraction()(b, p) is Some {
            let g = crate::format::f_chal(crate::blob::Mark::SumcheckCoeff);
            assert(reads_at(c_chal(), crate::parse::p_chal(), g, b, p));
            let (numer, q) = c_chal()(b, p)->0;
            assert(reads_at(c_chal(), crate::parse::p_chal(), g, b, q));
            let (denom, r) = c_chal()(b, q)->0;
            lemma_cat(b, p, q, r, g(numer), g(denom));
        }
    }
}

proof fn lemma_canon_fractions()
    ensures
        canon_reads(c_fractions(), crate::parse::p_fractions(), crate::format::f_fractions()),
{
    lemma_canon_fraction();
    assert forall|b: Seq<u8>, p: nat| #[trigger] reads_at(c_fractions(), crate::parse::p_fractions(), crate::format::f_fractions(), b, p) by {
        if c_fractions()(b, p) is Some {
            lemma_canon_vec(b, p, c_fraction(), crate::parse::p_fraction(), crate::format::f_fraction());
        }
    }
}

proof fn lemma_canon_batch()
    ensures
        canon_reads(c_batch(), crate::parse::p_batch(), crate::format::f_batch()),
{
    lemma_canon_sc_poly();
    assert forall|b: Seq<u8>, p: nat| #[trigger] reads_at(c_batch(), crate::parse::p_batch(), crate::format::f_batch(), b, p) by {
        if c_batch()(b, p) is Some {
            let g = crate::format::f_sc_poly();
            lemma_canon_vec(b, p, c_poly(), crate::parse::p_poly(), g);
            let (x1, q) = canon_vec(b, p, c_poly())->0;
            lemma_canon_vec(b, q, c_poly(), crate::parse::p_poly(), g);
            let (x2, r) = canon_vec(b, q, c_poly())->0;
            lemma_cat(b, p, q, r, toks_vec(x1, g), toks_vec(x2, g));
        }
    }
}

proof fn lemma_canon_fractional_sum(b: Seq<u8>, p: nat)
    requires
        canon_fractional_sum(b, p) is Some,
    ensures
        ({
            let (x, q) = canon_fractional_sum(b, p)->0;
            &&& crate::parse::parse_fractional_sum(b, p) == Ok::<(SpecFractionalSum, nat), DecodeError>((x, q))
            &&& p <= q <= b.len()
            &&& b.subrange(p as int, q as int) == flat(crate::format::toks_fractional_sum(x))
        }),
{
    reveal(crate::parse::parse_fractional_sum);
    lemma_canon_fractions();
    lemma_canon_batch();
    lemma_canon_vec(b, p, c_fractions(), crate::parse::p_fractions(), crate::format::f_fractions());
    let (x1, q) = canon_vec(b, p, c_fractions())->0;
    lemma_canon_vec(b, q, c_batch(), crate::parse::p_batch(), crate::format::f_batch());
    let (x2, r) = canon_vec(b, q, c_batch())->0;
    lemma_cat(b, p, q, r, toks_vec(x1, crate::format::f_fractions()), toks_vec(x2, crate::format::f_batch()));
}

proof fn lemma_canon_skip()
    ensures
        canon_reads(c_skip(), crate::parse::p_skip(), crate::format::f_skip()),
{
    lemma_canon_chal(crate::blob::Mark::SumcheckCoeff);
    lemma_canon_len();
    assert forall|b: Seq<u8>, p: nat| #[trigger] reads_at(c_skip(), crate::parse::p_skip(), crate::format::f_skip(), b, p) by {
        if c_skip()(b, p) is Some {
            let g = crate::format::f_chal(crate::blob::Mark::SumcheckCoeff);
            assert(reads_at(c_len(), crate::parse::p_len(), crate::format::f_len(), b, p));
            let (n, q) = c_len()(b, p)->0;
            lemma_canon_vec(b, q, c_chal(), crate::parse::p_chal(), g);
            let (x1, r) = canon_vec(b, q, c_chal())->0;
            lemma_canon_vec(b, r, c_chal(), crate::parse::p_chal(), g);
            let (x2, t) = canon_vec(b, r, c_chal())->0;
            lemma_cat(b, p, q, r, t_len(n as nat), toks_vec(x1, g));
            lemma_cat(b, p, r, t, t_len(n as nat) + toks_vec(x1, g), toks_vec(x2, g));
        }
    }
}

proof fn lemma_canon_air(b: Seq<u8>, p: nat)
    requires
        canon_air(b, p) is Some,
    ensures
        ({
            let (x, q) = canon_air(b, p)->0;
            &&& crate::parse::parse_air(b, p) == Ok::<(SpecAir, nat), DecodeError>((x, q))
            &&& p <= q <= b.len()
            &&& b.subrange(p as int, q as int) == flat(crate::format::toks_air(x))
        }),
{
    reveal(crate::parse::parse_air);
    lemma_canon_skip();
    lemma_canon_batch();
    let gb = crate::format::f_batch();
    lemma_canon_vec(b, p, c_skip(), crate::parse::p_skip(), crate::format::f_skip());
    let (x1, q) = canon_vec(b, p, c_skip())->0;
    assert(reads_at(c_batch(), crate::parse::p_batch(), gb, b, q));
    let (x2, r) = c_batch()(b, q)->0;
    assert(reads_at(c_batch(), crate::parse::p_batch(), gb, b, r));
    let (x3, t) = c_batch()(b, r)->0;
    lemma_cat(b, p, q, r, toks_vec(x1, crate::format::f_skip()), gb(x2));
    lemma_cat(b, p, r, t, toks_vec(x1, crate::format::f_skip()) + gb(x2), gb(x3));
}

proof fn lemma_canon_piop(b: Seq<u8>, p: nat)
    requires
        canon_piop(b, p) is Some,
    ensures
        ({
            let (x, q) = canon_piop(b, p)->0;
            &&& crate::parse::parse_piop(b, p) == Ok::<(SpecPiop, nat), DecodeError>((x, q))
            &&& p <= q <= b.len()
            &&& b.subrange(p as int, q as int) == flat(crate::format::toks_piop(x))
        }),
{
    lemma_canon_fractional_sum(b, p);
    let (x1, q) = canon_fractional_sum(b, p)->0;
    lemma_canon_air(b, q);
    let (x2, r) = canon_air(b, q)->0;
    lemma_cat(b, p, q, r, crate::format::toks_fractional_sum(x1), crate::format::toks_air(x2));
}

pub open spec fn canon_pair(b: Seq<u8>, p: nat) -> Option<((Challenge, Challenge), nat)> {
    match c_chal()(b, p) {
        None => None,
        Some((c0, q)) => match c_chal()(b, q) {
            None => None,
            Some((c2, r)) => Some(((c0, c2), r)),
        },
    }
}

pub open spec fn c_pair() -> CParser<(Challenge, Challenge)> {
    |b: Seq<u8>, p: nat| canon_pair(b, p)
}

pub open spec fn canon_sumcheck(b: Seq<u8>, p: nat) -> Option<(SpecSumcheck, nat)> {
    match canon_vec(b, p, c_pair()) {
        None => None,
        Some((polynomial_evaluations, q)) => match canon_vec(b, q, c_val()) {
            None => None,
            Some((pow_witnesses, r)) => Some(
                (SpecSumcheck { polynomial_evaluations, pow_witnesses }, r),
            ),
        },
    }
}

pub open spec fn c_sumcheck() -> CParser<SpecSumcheck> {
    |b: Seq<u8>, p: nat| canon_sumcheck(b, p)
}

pub open spec fn canon_query(b: Seq<u8>, p: nat) -> Option<(SpecQuery, nat)> {
    match ok_of(parse_u8(b, p)) {
        None => None,
        Some((tag, q)) => if tag == 0 {
            match canon_vec(b, q, c_val()) {
                None => None,
                Some((values, r)) => match canon_vec(b, r, c_digest()) {
                    None => None,
                    Some((proof, t)) => Some((SpecQuery::Base { values, proof }, t)),
                },
            }
        } else if tag == 1 {
            match canon_vec(b, q, c_chal()) {
                None => None,
                Some((values, r)) => match canon_vec(b, r, c_digest()) {
                    None => None,
                    Some((proof, t)) => Some((SpecQuery::Extension { values, proof }, t)),
                },
            }
        } else {
            None
        },
    }
}

pub open spec fn c_query() -> CParser<SpecQuery> {
    |b: Seq<u8>, p: nat| canon_query(b, p)
}

proof fn lemma_canon_pair()
    ensures
        canon_reads(c_pair(), crate::parse::p_pair(), crate::format::f_pair()),
{
    lemma_canon_chal(crate::blob::Mark::SumcheckCoeff);
    assert forall|b: Seq<u8>, p: nat| #[trigger] reads_at(c_pair(), crate::parse::p_pair(), crate::format::f_pair(), b, p) by {
        if c_pair()(b, p) is Some {
            let g = crate::format::f_chal(crate::blob::Mark::SumcheckCoeff);
            assert(reads_at(c_chal(), crate::parse::p_chal(), g, b, p));
            let (c0, q) = c_chal()(b, p)->0;
            assert(reads_at(c_chal(), crate::parse::p_chal(), g, b, q));
            let (c2, r) = c_chal()(b, q)->0;
            lemma_cat(b, p, q, r, g(c0), g(c2));
        }
    }
}

proof fn lemma_canon_sumcheck()
    ensures
        canon_reads(c_sumcheck(), crate::parse::p_sumcheck(), crate::format::f_sumcheck()),
{
    lemma_canon_pair();
    lemma_canon_val();
    assert forall|b: Seq<u8>, p: nat| #[trigger] reads_at(c_sumcheck(), crate::parse::p_sumcheck(), crate::format::f_sumcheck(), b, p) by {
        if c_sumcheck()(b, p) is Some {
            lemma_canon_vec(b, p, c_pair(), crate::parse::p_pair(), crate::format::f_pair());
            let (x1, q) = canon_vec(b, p, c_pair())->0;
            lemma_canon_vec(b, q, c_val(), crate::parse::p_val(), crate::format::f_val());
            let (x2, r) = canon_vec(b, q, c_val())->0;
            lemma_cat(b, p, q, r, toks_vec(x1, crate::format::f_pair()), toks_vec(x2, crate::format::f_val()));
        }
    }
}

proof fn lemma_canon_query()
    ensures
        canon_reads(c_query(), crate::parse::p_query(), crate::format::f_query()),
{
    lemma_canon_val();
    lemma_canon_chal(crate::blob::Mark::Plain);
    lemma_canon_sibling();
    assert forall|b: Seq<u8>, p: nat| #[trigger] reads_at(c_query(), crate::parse::p_query(), crate::format::f_query(), b, p) by {
        if c_query()(b, p) is Some {
            let tag = b[p as int];
            lemma_flat_one(Tok { mark: crate::blob::Mark::Plain, bytes: seq![tag] });
            assert(b.subrange(p as int, p + 1int) =~= seq![tag]);
            let gs = crate::format::f_sibling();
            if tag == 0 {
                let gv = crate::format::f_val();
                lemma_canon_vec(b, p + 1, c_val(), crate::parse::p_val(), gv);
                let (x1, r) = canon_vec(b, p + 1, c_val())->0;
                lemma_canon_vec(b, r, c_digest(), crate::parse::p_digest(), gs);
                let (x2, t) = canon_vec(b, r, c_digest())->0;
                lemma_cat(b, p, p + 1, r, crate::format::t_u8(0), toks_vec(x1, gv));
                lemma_cat(b, p, r, t, crate::format::t_u8(0) + toks_vec(x1, gv), toks_vec(x2, gs));
            } else {
                let gv = crate::format::f_chal(crate::blob::Mark::Plain);
                lemma_canon_vec(b, p + 1, c_chal(), crate::parse::p_chal(), gv);
                let (x1, r) = canon_vec(b, p + 1, c_chal())->0;
                lemma_canon_vec(b, r, c_digest(), crate::parse::p_digest(), gs);
                let (x2, t) = canon_vec(b, r, c_digest())->0;
                lemma_cat(b, p, p + 1, r, crate::format::t_u8(1), toks_vec(x1, gv));
                lemma_cat(b, p, r, t, crate::format::t_u8(1) + toks_vec(x1, gv), toks_vec(x2, gs));
            }
        }
    }
}

pub open spec fn canon_round(b: Seq<u8>, p: nat) -> Option<(SpecRound, nat)> {
    match c_digest()(b, p) {
        None => None,
        Some((commitment, p1)) => match canon_vec(b, p1, c_chal()) {
            None => None,
            Some((ood_answers, p2)) => match c_val()(b, p2) {
                None => None,
                Some((pow_witness, p3)) => match canon_vec(b, p3, c_query()) {
                    None => None,
                    Some((queries, p4)) => match canon_sumcheck(b, p4) {
                        None => None,
                        Some((sumcheck, p5)) => Some(
                            (SpecRound { commitment, ood_answers, pow_witness, queries, sumcheck }, p5),
                        ),
                    },
                },
            },
        },
    }
}

pub open spec fn c_round() -> CParser<SpecRound> {
    |b: Seq<u8>, p: nat| canon_round(b, p)
}

/// The final polynomial read canonically: a power-of-two number of evaluations.
pub open spec fn canon_final_poly(b: Seq<u8>, p: nat) -> Option<(Seq<Challenge>, nat)> {
    match ok_of(parse_len_at(b, p)) {
        None => None,
        Some((n, q)) => if !is_pow2(n as nat) {
            None
        } else {
            canon_rep(b, q, n as nat, c_chal())
        },
    }
}

pub open spec fn c_final_poly() -> CParser<Seq<Challenge>> {
    |b: Seq<u8>, p: nat| canon_final_poly(b, p)
}

proof fn lemma_canon_round()
    ensures
        canon_reads(c_round(), crate::parse::p_round(), crate::format::f_round()),
{
    lemma_canon_val();
    lemma_canon_chal(crate::blob::Mark::OodAnswer);
    lemma_canon_query();
    lemma_canon_sumcheck();
    reveal(crate::parse::parse_round);
    assert forall|b: Seq<u8>, p: nat| #[trigger] reads_at(c_round(), crate::parse::p_round(), crate::format::f_round(), b, p) by {
        if c_round()(b, p) is Some {
            let go = crate::format::f_chal(crate::blob::Mark::OodAnswer);
            let gq = crate::format::f_query();
            lemma_digest_read(b, p, crate::blob::Mark::Plain);
            let (x1, p1) = c_digest()(b, p)->0;
            lemma_canon_vec(b, p1, c_chal(), crate::parse::p_chal(), go);
            let (x2, p2) = canon_vec(b, p1, c_chal())->0;
            assert(reads_at(c_val(), crate::parse::p_val(), crate::format::f_val(), b, p2));
            let (x3, p3) = c_val()(b, p2)->0;
            lemma_canon_vec(b, p3, c_query(), crate::parse::p_query(), gq);
            let (x4, p4) = canon_vec(b, p3, c_query())->0;
            assert(reads_at(c_sumcheck(), crate::parse::p_sumcheck(), crate::format::f_sumcheck(), b, p4));
            let (x5, p5) = c_sumcheck()(b, p4)->0;
            let t1 = crate::format::t_digest(crate::blob::Mark::Plain, x1);
            let t2 = t1 + toks_vec(x2, go);
            let t3 = t2 + crate::format::t_val(x3);
            let t4 = t3 + toks_vec(x4, gq);
            lemma_cat(b, p, p1, p2, t1, toks_vec(x2, go));
            lemma_cat(b, p, p2, p3, t2, crate::format::t_val(x3));
            lemma_cat(b, p, p3, p4, t3, toks_vec(x4, gq));
            lemma_cat(b, p, p4, p5, t4, crate::format::toks_sumcheck(x5));
        }
    }
}

proof fn lemma_canon_final_poly()
    ensures
        canon_reads(c_final_poly(), crate::parse::p_final_poly(), crate::format::f_final_poly()),
{
    lemma_canon_chal(crate::blob::Mark::Plain);
    assert forall|b: Seq<u8>, p: nat| #[trigger] reads_at(c_final_poly(), crate::parse::p_final_poly(), crate::format::f_final_poly(), b, p) by {
        if c_final_poly()(b, p) is Some {
            let g = crate::format::f_chal(crate::blob::Mark::Plain);
            lemma_len_bytes(b, p);
            let (n, q) = parse_len_at(b, p)->Ok_0;
            lemma_canon_rep(b, q, n as nat, c_chal(), crate::parse::p_chal(), g);
            let (xs, r) = canon_rep(b, q, n as nat, c_chal())->0;
            lemma_cat(b, p, q, r, t_len(n as nat), toks_rep(xs, g));
            let marker: Seq<Tok> = if xs.len() > 0 {
                crate::blob::tok(crate::blob::Mark::FinalPoly, seq![])
            } else {
                seq![]
            };
            if xs.len() > 0 {
                lemma_flat_one(Tok { mark: crate::blob::Mark::FinalPoly, bytes: seq![] });
            } else {
                lemma_flat_empty();
            }
            lemma_flat_append(marker, toks_vec(xs, g));
            assert(flat(marker) + flat(toks_vec(xs, g)) =~= flat(toks_vec(xs, g)));
        }
    }
}

/// The first part of a WHIR proof read canonically.
pub open spec fn canon_whir_head(b: Seq<u8>, p: nat) -> Option<
    ((Seq<u64>, Seq<Challenge>, SpecSumcheck, Seq<SpecRound>), nat),
> {
    match c_digest()(b, p) {
        None => None,
        Some((initial_commitment, p1)) => match canon_vec(b, p1, c_chal()) {
            None => None,
            Some((initial_ood_answers, p2)) => match canon_sumcheck(b, p2) {
                None => None,
                Some((initial_sumcheck, p3)) => match canon_vec(b, p3, c_round()) {
                    None => None,
                    Some((rounds, p4)) => Some(
                        ((initial_commitment, initial_ood_answers, initial_sumcheck, rounds), p4),
                    ),
                },
            },
        },
    }
}

/// The second part of a WHIR proof read canonically.
pub open spec fn canon_whir_tail(b: Seq<u8>, p: nat) -> Option<
    ((Option<Seq<Challenge>>, u32, Seq<SpecQuery>, Option<SpecSumcheck>), nat),
> {
    match canon_option(b, p, c_final_poly()) {
        None => None,
        Some((final_poly, p5)) => match c_val()(b, p5) {
            None => None,
            Some((final_pow_witness, p6)) => match canon_vec(b, p6, c_query()) {
                None => None,
                Some((final_queries, p7)) => match canon_option(b, p7, c_sumcheck()) {
                    None => None,
                    Some((final_sumcheck, p8)) => Some(
                        ((final_poly, final_pow_witness, final_queries, final_sumcheck), p8),
                    ),
                },
            },
        },
    }
}

pub open spec fn canon_whir(b: Seq<u8>, p: nat) -> Option<(SpecWhir, nat)> {
    match canon_whir_head(b, p) {
        None => None,
        Some(((initial_commitment, initial_ood_answers, initial_sumcheck, rounds), p4)) => match canon_whir_tail(b, p4) {
            None => None,
            Some(((final_poly, final_pow_witness, final_queries, final_sumcheck), p8)) => Some(
                (
                    SpecWhir {
                        initial_commitment,
                        initial_ood_answers,
                        initial_sumcheck,
                        rounds,
                        final_poly,
                        final_pow_witness,
                        final_queries,
                        final_sumcheck,
                    },
                    p8,
                ),
            ),
        },
    }
}

pub open spec fn c_whir() -> CParser<SpecWhir> {
    |b: Seq<u8>, p: nat| canon_whir(b, p)
}

/// The fields of the first part of a WHIR proof.
pub open spec fn toks_whir_head(h: (Seq<u64>, Seq<Challenge>, SpecSumcheck, Seq<SpecRound>)) -> Seq<Tok> {
    crate::format::t_digest(crate::blob::Mark::Plain, h.0) + toks_vec(
        h.1,
        crate::format::f_chal(crate::blob::Mark::OodAnswer),
    ) + crate::format::toks_sumcheck(h.2) + toks_vec(h.3, crate::format::f_round())
}

/// The fields of the second part of a WHIR proof.
pub open spec fn toks_whir_tail(t: (Option<Seq<Challenge>>, u32, Seq<SpecQuery>, Option<SpecSumcheck>)) -> Seq<Tok> {
    toks_option(t.0, crate::format::f_final_poly()) + crate::format::t_val(t.1) + toks_vec(
        t.2,
        crate::format::f_query(),
    ) + toks_option(t.3, crate::format::f_sumcheck())
}

proof fn lemma_canon_whir_head(b: Seq<u8>, p: nat)
    requires
        canon_whir_head(b, p) is Some,
    ensures
        ({
            let (x, q) = canon_whir_head(b, p)->0;
            &&& crate::parse::parse_whir_head(b, p) == Ok::<((Seq<u64>, Seq<Challenge>, SpecSumcheck, Seq<SpecRound>), nat), DecodeError>((x, q))
            &&& p <= q <= b.len()
            &&& b.subrange(p as int, q as int) == flat(toks_whir_head(x))
        }),
{
    reveal(crate::parse::parse_whir_head);
    lemma_canon_chal(crate::blob::Mark::OodAnswer);
    lemma_canon_sumcheck();
    lemma_canon_round();
    let go = crate::format::f_chal(crate::blob::Mark::OodAnswer);
    let gr = crate::format::f_round();
    lemma_digest_read(b, p, crate::blob::Mark::Plain);
    let (x1, p1) = c_digest()(b, p)->0;
    lemma_canon_vec(b, p1, c_chal(), crate::parse::p_chal(), go);
    let (x2, p2) = canon_vec(b, p1, c_chal())->0;
    assert(reads_at(c_sumcheck(), crate::parse::p_sumcheck(), crate::format::f_sumcheck(), b, p2));
    let (x3, p3) = c_sumcheck()(b, p2)->0;
    lemma_canon_vec(b, p3, c_round(), crate::parse::p_round(), gr);
    let (x4, p4) = canon_vec(b, p3, c_round())->0;
    let t1 = crate::format::t_digest(crate::blob::Mark::Plain, x1);
    let t2 = t1 + toks_vec(x2, go);
    let t3 = t2 + crate::format::toks_sumcheck(x3);
    lemma_cat(b, p, p1, p2, t1, toks_vec(x2, go));
    lemma_cat(b, p, p2, p3, t2, crate::format::toks_sumcheck(x3));
    lemma_cat(b, p, p3, p4, t3, toks_vec(x4, gr));
}

proof fn lemma_canon_whir_tail(b: Seq<u8>, p: nat)
    requires
        canon_whir_tail(b, p) is Some,
    ensures
        ({
            let (x, q) = canon_whir_tail(b, p)->0;
            &&& crate::parse::parse_whir_tail(b, p) == Ok::<((Option<Seq<Challenge>>, u32, Seq<SpecQuery>, Option<SpecSumcheck>), nat), DecodeError>((x, q))
            &&& p <= q <= b.len()
            &&& b.subrange(p as int, q as int) == flat(toks_whir_tail(x))
        }),
{
    reveal(crate::parse::parse_whir_tail);
    lemma_canon_final_poly();
    lemma_canon_val();
    lemma_canon_query();
    lemma_canon_sumcheck();
    let gf = crate::format::f_final_poly();
    let gq = crate::format::f_query();
    let gs = crate::format::f_sumcheck();
    lemma_canon_option(b, p, c_final_poly(), crate::parse::p_final_poly(), gf);
    let (x1, p1) = canon_option(b, p, c_final_poly())->0;
    assert(reads_at(c_val(), crate::parse::p_val(), crate::format::f_val(), b, p1));
    let (x2, p2) = c_val()(b, p1)->0;
    lemma_canon_vec(b, p2, c_query(), crate::parse::p_query(), gq);
    let (x3, p3) = canon_vec(b, p2, c_query())->0;
    lemma_canon_option(b, p3, c_sumcheck(), crate::parse::p_sumcheck(), gs);
    let (x4, p4) = canon_option(b, p3, c_sumcheck())->0;
    let t1 = toks_option(x1, gf);
    let t2 = t1 + crate::format::t_val(x2);
    let t3 = t2 + toks_vec(x3, gq);
    lemma_cat(b, p, p1, p2, t1, crate::format::t_val(x2));
    lemma_cat(b, p, p2, p3, t2, toks_vec(x3, gq));
    lemma_cat(b, p, p3, p4, t3, toks_option(x4, gs));
}

#[verifier::spinoff_prover]
proof fn lemma_canon_whir()
    ensures
        canon_reads(c_whir(), crate::parse::p_whir(), crate::format::f_whir()),
{
    assert forall|b: Seq<u8>, p: nat| #[trigger] reads_at(c_whir(), crate::parse::p_whir(), crate::format::f_whir(), b, p) by {
        if c_whir()(b, p) is Some {
            lemma_canon_whir_head(b, p);
            let (h, q) = canon_whir_head(b, p)->0;
            lemma_canon_whir_tail(b, q);
            let (t, r) = canon_whir_tail(b, q)->0;
            lemma_cat(b, p, q, r, toks_whir_head(h), toks_whir_tail(t));
            let w = (c_whir()(b, p)->0).0;
            assert(toks_whir_head(h) + toks_whir_tail(t) =~= crate::format::toks_whir(w));
        }
    }
}

/// The proof blob read canonically: the decoder's reading of `b`, where in addition every
/// base-field limb read (public inputs, proof values, PoW witnesses, extension-field
/// coefficients) is below the modulus.
pub open spec fn canon_blob(b: Seq<u8>) -> Option<SpecBlob> {
    if b.len() < 4 || b.subrange(0, 4) != blob_magic() {
        None
    } else {
        match ok_of(parse_u8(b, 4)) {
            None => None,
            Some((version, p1)) => if version != 1 {
                None
            } else {
                match canon_vec(b, p1, c_vals()) {
                    None => None,
                    Some((public_inputs, p2)) => match canon_vec(b, p2, c_len()) {
                        None => None,
                        Some((log_bs, p3)) => match c_digest()(b, p3) {
                            None => None,
                            Some((commitment, p4)) => match canon_piop(b, p4) {
                                None => None,
                                Some((piop, p5)) => match canon_vec(b, p5, c_whir()) {
                                    None => None,
                                    Some((pcs, p6)) => if p6 != b.len() {
                                        None
                                    } else {
                                        Some(
                                            SpecBlob {
                                                public_inputs,
                                                proof: SpecProof { log_bs, commitment, piop, pcs },
                                            },
                                        )
                                    },
                                },
                            },
                        },
                    },
                }
            },
        }
    }
}

/// The decoder is strict on canonical input: where it accepts a blob whose base-field limbs
/// are all below the modulus, encoding the public inputs and proof it decoded gives back
/// exactly the bytes it read.
#[verifier::spinoff_prover]
pub proof fn lemma_canonical_blob_reencodes(b: Seq<u8>)
    requires
        canon_blob(b) is Some,
    ensures
        parse_blob(b) == Ok::<SpecBlob, DecodeError>(canon_blob(b)->0),
        blob_bytes(canon_blob(b)->0.public_inputs, canon_blob(b)->0.proof) == b,
{
    lemma_canon_vals();
    lemma_canon_len();
    lemma_canon_whir();
    let gv = crate::format::f_vals();
    let gl = crate::format::f_len();
    let gw = crate::format::f_whir();
    let p1 = 5nat;
    lemma_canon_vec(b, p1, c_vals(), crate::parse::p_vals(), gv);
    let (x1, p2) = canon_vec(b, p1, c_vals())->0;
    lemma_canon_vec(b, p2, c_len(), crate::parse::p_len(), gl);
    let (x2, p3) = canon_vec(b, p2, c_len())->0;
    lemma_digest_read(b, p3, crate::blob::Mark::Commitment);
    let (x3, p4) = c_digest()(b, p3)->0;
    lemma_canon_piop(b, p4);
    let (x4, p5) = canon_piop(b, p4)->0;
    lemma_canon_vec(b, p5, c_whir(), crate::parse::p_whir(), gw);
    let (x5, p6) = canon_vec(b, p5, c_whir())->0;
    let head = crate::blob::plain(blob_magic()) + crate::format::t_u8(1);
    lemma_flat_one(Tok { mark: crate::blob::Mark::Plain, bytes: blob_magic() });
    lemma_flat_one(Tok { mark: crate::blob::Mark::Plain, bytes: seq![1u8] });
    lemma_flat_append(crate::blob::plain(blob_magic()), crate::format::t_u8(1));
    assert(b.subrange(0, 5) =~= b.subrange(0, 4) + seq![b[4]]);
    let t1 = head + toks_vec(x1, gv);
    let t2 = t1 + toks_vec(x2, gl);
    let t3 = t2 + crate::format::t_digest(crate::blob::Mark::Commitment, x3);
    let t4 = t3 + crate::format::toks_piop(x4);
    lemma_cat(b, 0, p1, p2, head, toks_vec(x1, gv));
    lemma_cat(b, 0, p2, p3, t1, toks_vec(x2, gl));
    lemma_cat(b, 0, p3, p4, t2, crate::format::t_digest(crate::blob::Mark::Commitment, x3));
    lemma_cat(b, 0, p4, p5, t3, crate::format::toks_piop(x4));
    lemma_cat(b, 0, p5, p6, t4, toks_vec(x5, gw));
    assert(b.subrange(0, b.len() as int) =~= b);
}

// ---------------------------------------------------------------------------------------------
// The other way: the bytes of a well-formed value are read back canonically.
// ---------------------------------------------------------------------------------------------

/// The bytes `s` stand in `b` from position `p`.
pub open spec fn holds_at(b: Seq<u8>, p: nat, s: Seq<u8>) -> bool {
    p + s.len() <= b.len() && b.subrange(p as int, (p + s.len()) as int) == s
}

/// Where the fields `g` writes for `x` stand at `p`, `c` reads `x` back from them.
pub open spec fn written_at<T>(x: T, g: spec_fn(T) -> Seq<Tok>, c: CParser<T>, b: Seq<u8>, p: nat) -> bool {
    holds_at(b, p, flat(g(x))) ==> c(b, p) == Some((x, p + flat(g(x)).len()))
}

/// `c` reads `x` back from the fields `g` writes for it, wherever they stand.
pub open spec fn writes_canon<T>(x: T, g: spec_fn(T) -> Seq<Tok>, c: CParser<T>) -> bool {
    forall|b: Seq<u8>, p: nat| #[trigger] written_at(x, g, c, b, p)
}

/// Where two field sequences stand one after the other, each stands at its place.
pub proof fn lemma_split(b: Seq<u8>, p: nat, t1: Seq<Tok>, t2: Seq<Tok>)
    requires
        holds_at(b, p, flat(t1 + t2)),
    ensures
        holds_at(b, p, flat(t1)),
        holds_at(b, p + flat(t1).len(), flat(t2)),
        flat(t1 + t2).len() == flat(t1).len() + flat(t2).len(),
{
    lemma_flat_append(t1, t2);
    let x = flat(t1);
    let y = flat(t2);
    let n1 = x.len();
    let whole = b.subrange(p as int, (p + n1 + y.len()) as int);
    assert(whole == x + y);
    assert(b.subrange(p as int, (p + n1) as int) =~= whole.subrange(0, n1 as int));
    assert((x + y).subrange(0, n1 as int) =~= x);
    assert(b.subrange((p + n1) as int, (p + n1 + y.len()) as int) =~= whole.subrange(
        n1 as int,
        (n1 + y.len()) as int,
    ));
    assert((x + y).subrange(n1 as int, (n1 + y.len()) as int) =~= y);
}

proof fn lemma_write_val(v: u32)
    requires
        crate::field::is_canonical_val(v),
    ensures
        writes_canon(v, crate::format::f_val(), c_val()),
{
    lemma_flat_one(Tok { mark: crate::blob::Mark::Plain, bytes: be32(v) });
    assert forall|b: Seq<u8>, p: nat| #[trigger] written_at(v, crate::format::f_val(), c_val(), b, p) by {
        if holds_at(b, p, flat(crate::format::f_val()(v))) {
            crate::bytes::lemma_be32_roundtrip(v, b, p as int);
        }
    }
}

proof fn lemma_write_chal(m: crate::blob::Mark, x: Challenge)
    requires
        x.is_canonical(),
    ensures
        writes_canon(x, crate::format::f_chal(m), c_chal()),
{
    lemma_flat_one(Tok { mark: m, bytes: crate::blob::challenge_bytes(x) });
    assert forall|b: Seq<u8>, p: nat| #[trigger] written_at(x, crate::format::f_chal(m), c_chal(), b, p) by {
        if holds_at(b, p, flat(crate::format::f_chal(m)(x))) {
            let pi = p as int;
            let s = crate::blob::challenge_bytes(x);
            assert(b.subrange(pi, pi + 4) =~= s.subrange(0, 4));
            assert(b.subrange(pi + 4, pi + 8) =~= s.subrange(4, 8));
            assert(b.subrange(pi + 8, pi + 12) =~= s.subrange(8, 12));
            assert(b.subrange(pi + 12, pi + 16) =~= s.subrange(12, 16));
            assert(s.subrange(0, 4) =~= be32(x.c0));
            assert(s.subrange(4, 8) =~= be32(x.c1));
            assert(s.subrange(8, 12) =~= be32(x.c2));
            assert(s.subrange(12, 16) =~= be32(x.c3));
            crate::bytes::lemma_be32_roundtrip(x.c0, b, pi);
            crate::bytes::lemma_be32_roundtrip(x.c1, b, pi + 4);
            crate::bytes::lemma_be32_roundtrip(x.c2, b, pi + 8);
            crate::bytes::lemma_be32_roundtrip(x.c3, b, pi + 12);
        }
    }
}

/// A digest of four words is read back from its bytes32 form.
proof fn lemma_write_digest(m: crate::blob::Mark, d: Seq<u64>, b: Seq<u8>, p: nat)
    requires
        d.len() == 4,
        holds_at(b, p, flat(crate::format::t_digest(m, d))),
    ensures
        flat(crate::format::t_digest(m, d)).len() == 32,
        c_digest()(b, p) == Some((d, p + 32)),
{
    lemma_flat_one(Tok { mark: m, bytes: digest_bytes(d) });
    crate::keccak::lemma_digest_words_of_bytes(d);
}

proof fn lemma_write_sibling(d: Seq<u64>)
    requires
        d.len() == 4,
    ensures
        writes_canon(d, crate::format::f_sibling(), c_digest()),
{
    assert forall|b: Seq<u8>, p: nat| #[trigger] written_at(d, crate::format::f_sibling(), c_digest(), b, p) by {
        if holds_at(b, p, flat(crate::format::f_sibling()(d))) {
            lemma_write_digest(crate::blob::Mark::MerkleSibling, d, b, p);
        }
    }
}

/// A length is read back from its varuint.
proof fn lemma_write_len(n: usize, b: Seq<u8>, p: nat)
    requires
        holds_at(b, p, flat(t_len(n as nat))),
    ensures
        ok_of(parse_len_at(b, p)) == Some((n, p + flat(t_len(n as nat)).len())),
{
    reveal(parse_len_at);
    let v = varuint(n as u64);
    lemma_flat_one(Tok { mark: crate::blob::Mark::Plain, bytes: varuint((n as nat) as u64) });
    assert((n as nat) as u64 == n as u64);
    let rest = b.subrange((p + v.len()) as int, b.len() as int);
    crate::blob::lemma_parse_len_roundtrip(n, rest);
    assert(b.subrange(p as int, b.len() as int) =~= v + rest);
}

proof fn lemma_write_len_f(n: usize)
    ensures
        writes_canon(n, crate::format::f_len(), c_len()),
{
    assert forall|b: Seq<u8>, p: nat| #[trigger] written_at(n, crate::format::f_len(), c_len(), b, p) by {
        if holds_at(b, p, flat(crate::format::f_len()(n))) {
            lemma_write_len(n, b, p);
        }
    }
}

/// Items written one after another are read back canonically one after another.
proof fn lemma_write_rep<T>(xs: Seq<T>, g: spec_fn(T) -> Seq<Tok>, c: CParser<T>, b: Seq<u8>, p: nat)
    requires
        forall|i: int| 0 <= i < xs.len() ==> writes_canon(#[trigger] xs[i], g, c),
        holds_at(b, p, flat(toks_rep(xs, g))),
    ensures
        canon_rep(b, p, xs.len(), c) == Some((xs, p + flat(toks_rep(xs, g)).len())),
    decreases xs.len(),
{
    if xs.len() == 0 {
        reveal(toks_rep);
        lemma_flat_empty();
        assert(xs =~= seq![]);
    } else {
        let ys = xs.drop_last();
        let x = xs.last();
        lemma_toks_rep_push(ys, g, x);
        assert(ys.push(x) =~= xs);
        lemma_split(b, p, toks_rep(ys, g), g(x));
        assert forall|i: int| 0 <= i < ys.len() implies writes_canon(#[trigger] ys[i], g, c) by {
            assert(ys[i] == xs[i]);
        }
        lemma_write_rep(ys, g, c, b, p);
        assert(writes_canon(xs[xs.len() - 1], g, c));
        assert(written_at(x, g, c, b, p + flat(toks_rep(ys, g)).len()));
    }
}

/// A length-prefixed list is read back canonically.
proof fn lemma_write_vec<T>(xs: Seq<T>, g: spec_fn(T) -> Seq<Tok>, c: CParser<T>, b: Seq<u8>, p: nat)
    requires
        crate::model::fits(xs.len()),
        forall|i: int| 0 <= i < xs.len() ==> writes_canon(#[trigger] xs[i], g, c),
        holds_at(b, p, flat(toks_vec(xs, g))),
    ensures
        canon_vec(b, p, c) == Some((xs, p + flat(toks_vec(xs, g)).len())),
{
    lemma_split(b, p, t_len(xs.len()), toks_rep(xs, g));
    let n = xs.len() as usize;
    assert(n as nat == xs.len());
    lemma_write_len(n, b, p);
    lemma_write_rep(xs, g, c, b, p + flat(t_len(xs.len())).len());
}

proof fn lemma_write_vec_f<T>(xs: Seq<T>, g: spec_fn(T) -> Seq<Tok>, c: CParser<T>)
    requires
        crate::model::fits(xs.len()),
        forall|i: int| 0 <= i < xs.len() ==> writes_canon(#[trigger] xs[i], g, c),
    ensures
        forall|b: Seq<u8>, p: nat| #[trigger] holds_at(b, p, flat(toks_vec(xs, g))) ==> canon_vec(b, p, c)
            == Some((xs, p + flat(toks_vec(xs, g)).len())),
{
    assert forall|b: Seq<u8>, p: nat| #[trigger] holds_at(b, p, flat(toks_vec(xs, g))) implies canon_vec(b, p, c)
        == Some((xs, p + flat(toks_vec(xs, g)).len())) by {
        lemma_write_vec(xs, g, c, b, p);
    }
}

/// An optional section is read back canonically.
proof fn lemma_write_option<T>(o: Option<T>, g: spec_fn(T) -> Seq<Tok>, c: CParser<T>, b: Seq<u8>, p: nat)
    requires
        o matches Some(x) ==> writes_canon(x, g, c),
        holds_at(b, p, flat(toks_option(o, g))),
    ensures
        canon_option(b, p, c) == Some((o, p + flat(toks_option(o, g)).len())),
{
    match o {
        None => {
            lemma_flat_one(Tok { mark: crate::blob::Mark::Plain, bytes: seq![0u8] });
            assert(b[p as int] == b.subrange(p as int, p + 1int)[0]);
        },
        Some(x) => {
            lemma_split(b, p, crate::format::t_u8(1), g(x));
            lemma_flat_one(Tok { mark: crate::blob::Mark::Plain, bytes: seq![1u8] });
            assert(b[p as int] == b.subrange(p as int, p + 1int)[0]);
            assert(written_at(x, g, c, b, p + 1));
        },
    }
}

proof fn lemma_write_chals(m: crate::blob::Mark, v: Seq<Challenge>)
    requires
        crate::model::ok_chals(v),
    ensures
        forall|i: int| 0 <= i < v.len() ==> writes_canon(#[trigger] v[i], crate::format::f_chal(m), c_chal()),
{
    assert forall|i: int| 0 <= i < v.len() implies writes_canon(#[trigger] v[i], crate::format::f_chal(m), c_chal()) by {
        lemma_write_chal(m, v[i]);
    }
}

proof fn lemma_write_poly(v: Seq<Challenge>)
    requires
        crate::model::ok_chals(v),
    ensures
        writes_canon(v, crate::format::f_sc_poly(), c_poly()),
{
    let g = crate::format::f_chal(crate::blob::Mark::SumcheckCoeff);
    lemma_write_chals(crate::blob::Mark::SumcheckCoeff, v);
    lemma_write_vec_f(v, g, c_chal());
    assert forall|b: Seq<u8>, p: nat| #[trigger] written_at(v, crate::format::f_sc_poly(), c_poly(), b, p) by {
        if holds_at(b, p, flat(crate::format::f_sc_poly()(v))) {
            assert(holds_at(b, p, flat(toks_vec(v, g))));
        }
    }
}

proof fn lemma_write_polys(v: Seq<Seq<Challenge>>)
    requires
        crate::model::ok_polys(v),
    ensures
        forall|i: int| 0 <= i < v.len() ==> writes_canon(#[trigger] v[i], crate::format::f_sc_poly(), c_poly()),
{
    assert forall|i: int| 0 <= i < v.len() implies writes_canon(#[trigger] v[i], crate::format::f_sc_poly(), c_poly()) by {
        lemma_write_poly(v[i]);
    }
}

proof fn lemma_write_vals(v: Seq<u32>)
    requires
        crate::model::ok_vals(v),
    ensures
        writes_canon(v, crate::format::f_vals(), c_vals()),
        forall|i: int| 0 <= i < v.len() ==> writes_canon(#[trigger] v[i], crate::format::f_val(), c_val()),
{
    let g = crate::format::f_val();
    assert forall|i: int| 0 <= i < v.len() implies writes_canon(#[trigger] v[i], g, c_val()) by {
        lemma_write_val(v[i]);
    }
    lemma_write_vec_f(v, g, c_val());
    assert forall|b: Seq<u8>, p: nat| #[trigger] written_at(v, crate::format::f_vals(), c_vals(), b, p) by {
        if holds_at(b, p, flat(crate::format::f_vals()(v))) {
            assert(holds_at(b, p, flat(toks_vec(v, g))));
        }
    }
}

proof fn lemma_write_fraction(fr: Fraction)
    requires
        fr.wf(),
    ensures
        writes_canon(fr, crate::format::f_fraction(), c_fraction()),
{
    let g = crate::format::f_chal(crate::blob::Mark::SumcheckCoeff);
    lemma_write_chal(crate::blob::Mark::SumcheckCoeff, fr.numer);
    lemma_write_chal(crate::blob::Mark::SumcheckCoeff, fr.denom);
    assert forall|b: Seq<u8>, p: nat| #[trigger] written_at(fr, crate::format::f_fraction(), c_fraction(), b, p) by {
        if holds_at(b, p, flat(crate::format::f_fraction()(fr))) {
            lemma_split(b, p, g(fr.numer), g(fr.denom));
            assert(written_at(fr.numer, g, c_chal(), b, p));
            assert(written_at(fr.denom, g, c_chal(), b, p + flat(g(fr.numer)).len()));
        }
    }
}

proof fn lemma_write_fractions(v: Seq<Fraction>)
    requires
        crate::model::ok_fractions(v),
    ensures
        writes_canon(v, crate::format::f_fractions(), c_fractions()),
{
    let g = crate::format::f_fraction();
    assert forall|i: int| 0 <= i < v.len() implies writes_canon(#[trigger] v[i], g, c_fraction()) by {
        lemma_write_fraction(v[i]);
    }
    lemma_write_vec_f(v, g, c_fraction());
    assert forall|b: Seq<u8>, p: nat| #[trigger] written_at(v, crate::format::f_fractions(), c_fractions(), b, p) by {
        if holds_at(b, p, flat(crate::format::f_fractions()(v))) {
            assert(holds_at(b, p, flat(toks_vec(v, g))));
        }
    }
}

proof fn lemma_write_batch(x: SpecBatchSumcheck)
    requires
        x.wf(),
    ensures
        writes_canon(x, crate::format::f_batch(), c_batch()),
{
    let g = crate::format::f_sc_poly();
    lemma_write_polys(x.compressed_round_polys);
    lemma_write_polys(x.evals);
    lemma_write_vec_f(x.compressed_round_polys, g, c_poly());
    lemma_write_vec_f(x.evals, g, c_poly());
    assert forall|b: Seq<u8>, p: nat| #[trigger] written_at(x, crate::format::f_batch(), c_batch(), b, p) by {
        if holds_at(b, p, flat(crate::format::f_batch()(x))) {
            let t1 = toks_vec(x.compressed_round_polys, g);
            let t2 = toks_vec(x.evals, g);
            lemma_split(b, p, t1, t2);
            assert(holds_at(b, p + flat(t1).len(), flat(t2)));
        }
    }
}

proof fn lemma_write_fractional_sum(x: SpecFractionalSum, b: Seq<u8>, p: nat)
    requires
        x.wf(),
        holds_at(b, p, flat(crate::format::toks_fractional_sum(x))),
    ensures
        canon_fractional_sum(b, p) == Some((x, p + flat(crate::format::toks_fractional_sum(x)).len())),
{
    let gf = crate::format::f_fractions();
    let gb = crate::format::f_batch();
    assert forall|i: int| 0 <= i < x.sums.len() implies writes_canon(#[trigger] x.sums[i], gf, c_fractions()) by {
        lemma_write_fractions(x.sums[i]);
    }
    assert forall|i: int| 0 <= i < x.layers.len() implies writes_canon(#[trigger] x.layers[i], gb, c_batch()) by {
        lemma_write_batch(x.layers[i]);
    }
    let t1 = toks_vec(x.sums, gf);
    let t2 = toks_vec(x.layers, gb);
    lemma_split(b, p, t1, t2);
    lemma_write_vec(x.sums, gf, c_fractions(), b, p);
    lemma_write_vec(x.layers, gb, c_batch(), b, p + flat(t1).len());
}

proof fn lemma_write_skip(x: SpecSkip)
    requires
        x.wf(),
    ensures
        writes_canon(x, crate::format::f_skip(), c_skip()),
{
    let g = crate::format::f_chal(crate::blob::Mark::SumcheckCoeff);
    lemma_write_chals(crate::blob::Mark::SumcheckCoeff, x.zero_check_round_poly);
    lemma_write_chals(crate::blob::Mark::SumcheckCoeff, x.eval_check_round_poly);
    lemma_write_vec_f(x.zero_check_round_poly, g, c_chal());
    lemma_write_vec_f(x.eval_check_round_poly, g, c_chal());
    assert forall|b: Seq<u8>, p: nat| #[trigger] written_at(x, crate::format::f_skip(), c_skip(), b, p) by {
        if holds_at(b, p, flat(crate::format::f_skip()(x))) {
            let t1 = t_len(x.skip_rounds as nat);
            let t2 = toks_vec(x.zero_check_round_poly, g);
            let t3 = toks_vec(x.eval_check_round_poly, g);
            lemma_split(b, p, t1 + t2, t3);
            lemma_split(b, p, t1, t2);
            lemma_write_len(x.skip_rounds, b, p);
            assert(holds_at(b, p + flat(t1).len(), flat(t2)));
            assert(holds_at(b, p + flat(t1).len() + flat(t2).len(), flat(t3)));
        }
    }
}

proof fn lemma_write_air(x: SpecAir, b: Seq<u8>, p: nat)
    requires
        x.wf(),
        holds_at(b, p, flat(crate::format::toks_air(x))),
    ensures
        canon_air(b, p) == Some((x, p + flat(crate::format::toks_air(x)).len())),
{
    let gs = crate::format::f_skip();
    let gb = crate::format::f_batch();
    assert forall|i: int| 0 <= i < x.univariate_skips.len() implies writes_canon(#[trigger] x.univariate_skips[i], gs, c_skip()) by {
        lemma_write_skip(x.univariate_skips[i]);
    }
    lemma_write_batch(x.regular);
    lemma_write_batch(x.univariate_eval_check);
    let t1 = toks_vec(x.univariate_skips, gs);
    let t2 = gb(x.regular);
    let t3 = gb(x.univariate_eval_check);
    lemma_split(b, p, t1 + t2, t3);
    lemma_split(b, p, t1, t2);
    lemma_write_vec(x.univariate_skips, gs, c_skip(), b, p);
    assert(written_at(x.regular, gb, c_batch(), b, p + flat(t1).len()));
    assert(written_at(x.univariate_eval_check, gb, c_batch(), b, p + flat(t1).len() + flat(t2).len()));
}

proof fn lemma_write_piop(x: SpecPiop, b: Seq<u8>, p: nat)
    requires
        x.wf(),
        holds_at(b, p, flat(crate::format::toks_piop(x))),
    ensures
        canon_piop(b, p) == Some((x, p + flat(crate::format::toks_piop(x)).len())),
{
    let t1 = crate::format::toks_fractional_sum(x.fractional_sum);
    let t2 = crate::format::toks_air(x.air);
    lemma_split(b, p, t1, t2);
    lemma_write_fractional_sum(x.fractional_sum, b, p);
    lemma_write_air(x.air, b, p + flat(t1).len());
}

proof fn lemma_write_pair(e: (Challenge, Challenge))
    requires
        crate::model::pair_wf(e),
    ensures
        writes_canon(e, crate::format::f_pair(), c_pair()),
{
    let g = crate::format::f_chal(crate::blob::Mark::SumcheckCoeff);
    lemma_write_chal(crate::blob::Mark::SumcheckCoeff, e.0);
    lemma_write_chal(crate::blob::Mark::SumcheckCoeff, e.1);
    assert forall|b: Seq<u8>, p: nat| #[trigger] written_at(e, crate::format::f_pair(), c_pair(), b, p) by {
        if holds_at(b, p, flat(crate::format::f_pair()(e))) {
            lemma_split(b, p, g(e.0), g(e.1));
            assert(written_at(e.0, g, c_chal(), b, p));
            assert(written_at(e.1, g, c_chal(), b, p + flat(g(e.0)).len()));
        }
    }
}

proof fn lemma_write_sumcheck(x: SpecSumcheck)
    requires
        x.wf(),
    ensures
        writes_canon(x, crate::format::f_sumcheck(), c_sumcheck()),
{
    let gp = crate::format::f_pair();
    let gv = crate::format::f_val();
    assert forall|i: int| 0 <= i < x.polynomial_evaluations.len() implies writes_canon(#[trigger] x.polynomial_evaluations[i], gp, c_pair()) by {
        lemma_write_pair(x.polynomial_evaluations[i]);
    }
    lemma_write_vals(x.pow_witnesses);
    lemma_write_vec_f(x.polynomial_evaluations, gp, c_pair());
    lemma_write_vec_f(x.pow_witnesses, gv, c_val());
    assert forall|b: Seq<u8>, p: nat| #[trigger] written_at(x, crate::format::f_sumcheck(), c_sumcheck(), b, p) by {
        if holds_at(b, p, flat(crate::format::f_sumcheck()(x))) {
            let t1 = toks_vec(x.polynomial_evaluations, gp);
            let t2 = toks_vec(x.pow_witnesses, gv);
            lemma_split(b, p, t1, t2);
            assert(holds_at(b, p + flat(t1).len(), flat(t2)));
        }
    }
}

proof fn lemma_write_query(q: SpecQuery)
    requires
        q.wf(),
    ensures
        writes_canon(q, crate::format::f_query(), c_query()),
{
    let gs = crate::format::f_sibling();
    match q {
        SpecQuery::Base { values, proof } => {
            assert forall|i: int| 0 <= i < proof.len() implies writes_canon(#[trigger] proof[i], gs, c_digest()) by {
                lemma_write_sibling(proof[i]);
            }
            lemma_write_vals(values);
        },
        SpecQuery::Extension { values, proof } => {
            assert forall|i: int| 0 <= i < proof.len() implies writes_canon(#[trigger] proof[i], gs, c_digest()) by {
                lemma_write_sibling(proof[i]);
            }
            lemma_write_chals(crate::blob::Mark::Plain, values);
        },
    }
    assert forall|b: Seq<u8>, p: nat| #[trigger] written_at(q, crate::format::f_query(), c_query(), b, p) by {
        if holds_at(b, p, flat(crate::format::f_query()(q))) {
            match q {
                SpecQuery::Base { values, proof } => {
                    let gv = crate::format::f_val();
                    let t0 = crate::format::t_u8(0);
                    let t1 = toks_vec(values, gv);
                    let t2 = toks_vec(proof, gs);
                    lemma_split(b, p, t0 + t1, t2);
                    lemma_split(b, p, t0, t1);
                    lemma_flat_one(Tok { mark: crate::blob::Mark::Plain, bytes: seq![0u8] });
                    assert(b[p as int] == b.subrange(p as int, p + 1int)[0]);
                    lemma_write_vec(values, gv, c_val(), b, p + 1);
                    lemma_write_vec(proof, gs, c_digest(), b, p + 1 + flat(t1).len());
                },
                SpecQuery::Extension { values, proof } => {
                    let gv = crate::format::f_chal(crate::blob::Mark::Plain);
                    let t0 = crate::format::t_u8(1);
                    let t1 = toks_vec(values, gv);
                    let t2 = toks_vec(proof, gs);
                    lemma_split(b, p, t0 + t1, t2);
                    lemma_split(b, p, t0, t1);
                    lemma_flat_one(Tok { mark: crate::blob::Mark::Plain, bytes: seq![1u8] });
                    assert(b[p as int] == b.subrange(p as int, p + 1int)[0]);
                    lemma_write_vec(values, gv, c_chal(), b, p + 1);
                    lemma_write_vec(proof, gs, c_digest(), b, p + 1 + flat(t1).len());
                },
            }
        }
    }
}

proof fn lemma_write_queries(v: Seq<SpecQuery>)
    requires
        crate::model::queries_wf(v),
    ensures
        forall|i: int| 0 <= i < v.len() ==> writes_canon(#[trigger] v[i], crate::format::f_query(), c_query()),
{
    assert forall|i: int| 0 <= i < v.len() implies writes_canon(#[trigger] v[i], crate::format::f_query(), c_query()) by {
        lemma_write_query(v[i]);
    }
}

proof fn lemma_write_round(x: SpecRound)
    requires
        x.wf(),
    ensures
        writes_canon(x, crate::format::f_round(), c_round()),
{
    let go = crate::format::f_chal(crate::blob::Mark::OodAnswer);
    let gq = crate::format::f_query();
    lemma_write_chals(crate::blob::Mark::OodAnswer, x.ood_answers);
    lemma_write_queries(x.queries);
    lemma_write_val(x.pow_witness);
    lemma_write_sumcheck(x.sumcheck);
    assert forall|b: Seq<u8>, p: nat| #[trigger] written_at(x, crate::format::f_round(), c_round(), b, p) by {
        if holds_at(b, p, flat(crate::format::f_round()(x))) {
            let t1 = crate::format::t_digest(crate::blob::Mark::Plain, x.commitment);
            let t2 = toks_vec(x.ood_answers, go);
            let t3 = crate::format::t_val(x.pow_witness);
            let t4 = toks_vec(x.queries, gq);
            let t5 = crate::format::toks_sumcheck(x.sumcheck);
            lemma_split(b, p, t1 + t2 + t3 + t4, t5);
            lemma_split(b, p, t1 + t2 + t3, t4);
            lemma_split(b, p, t1 + t2, t3);
            lemma_split(b, p, t1, t2);
            lemma_write_digest(crate::blob::Mark::Plain, x.commitment, b, p);
            let p1 = p + flat(t1).len();
            let p2 = p1 + flat(t2).len();
            let p3 = p2 + flat(t3).len();
            let p4 = p3 + flat(t4).len();
            lemma_write_vec(x.ood_answers, go, c_chal(), b, p1);
            assert(written_at(x.pow_witness, crate::format::f_val(), c_val(), b, p2));
            lemma_write_vec(x.queries, gq, c_query(), b, p3);
            assert(written_at(x.sumcheck, crate::format::f_sumcheck(), c_sumcheck(), b, p4));
        }
    }
}

proof fn lemma_write_final_poly(v: Seq<Challenge>)
    requires
        crate::model::ok_chals(v),
        is_pow2(v.len()),
    ensures
        writes_canon(v, crate::format::f_final_poly(), c_final_poly()),
{
    let g = crate::format::f_chal(crate::blob::Mark::Plain);
    lemma_write_chals(crate::blob::Mark::Plain, v);
    assert forall|b: Seq<u8>, p: nat| #[trigger] written_at(v, crate::format::f_final_poly(), c_final_poly(), b, p) by {
        if holds_at(b, p, flat(crate::format::f_final_poly()(v))) {
            let marker: Seq<Tok> = if v.len() > 0 {
                crate::blob::tok(crate::blob::Mark::FinalPoly, seq![])
            } else {
                seq![]
            };
            if v.len() > 0 {
                lemma_flat_one(Tok { mark: crate::blob::Mark::FinalPoly, bytes: seq![] });
            } else {
                lemma_flat_empty();
            }
            lemma_split(b, p, marker, toks_vec(v, g));
            lemma_split(b, p, t_len(v.len()), toks_rep(v, g));
            let n = v.len() as usize;
            assert(n as nat == v.len());
            lemma_write_len(n, b, p);
            lemma_write_rep(v, g, c_chal(), b, p + flat(t_len(v.len())).len());
        }
    }
}

#[verifier::spinoff_prover]
proof fn lemma_write_whir_head(w: SpecWhir, b: Seq<u8>, p: nat)
    requires
        w.wf(),
        holds_at(b, p, flat(toks_whir_head((w.initial_commitment, w.initial_ood_answers, w.initial_sumcheck, w.rounds)))),
    ensures
        canon_whir_head(b, p) == Some(
            (
                (w.initial_commitment, w.initial_ood_answers, w.initial_sumcheck, w.rounds),
                p + flat(toks_whir_head((w.initial_commitment, w.initial_ood_answers, w.initial_sumcheck, w.rounds))).len(),
            ),
        ),
{
    let go = crate::format::f_chal(crate::blob::Mark::OodAnswer);
    let gr = crate::format::f_round();
    lemma_write_chals(crate::blob::Mark::OodAnswer, w.initial_ood_answers);
    lemma_write_sumcheck(w.initial_sumcheck);
    assert forall|i: int| 0 <= i < w.rounds.len() implies writes_canon(#[trigger] w.rounds[i], gr, c_round()) by {
        lemma_write_round(w.rounds[i]);
    }
    let t1 = crate::format::t_digest(crate::blob::Mark::Plain, w.initial_commitment);
    let t2 = toks_vec(w.initial_ood_answers, go);
    let t3 = crate::format::toks_sumcheck(w.initial_sumcheck);
    let t4 = toks_vec(w.rounds, gr);
    lemma_split(b, p, t1 + t2 + t3, t4);
    lemma_split(b, p, t1 + t2, t3);
    lemma_split(b, p, t1, t2);
    lemma_write_digest(crate::blob::Mark::Plain, w.initial_commitment, b, p);
    let p1 = p + flat(t1).len();
    let p2 = p1 + flat(t2).len();
    let p3 = p2 + flat(t3).len();
    lemma_write_vec(w.initial_ood_answers, go, c_chal(), b, p1);
    assert(written_at(w.initial_sumcheck, crate::format::f_sumcheck(), c_sumcheck(), b, p2));
    lemma_write_vec(w.rounds, gr, c_round(), b, p3);
}

#[verifier::spinoff_prover]
proof fn lemma_write_whir_tail(w: SpecWhir, b: Seq<u8>, p: nat)
    requires
        w.wf(),
        holds_at(b, p, flat(toks_whir_tail((w.final_poly, w.final_pow_witness, w.final_queries, w.final_sumcheck)))),
    ensures
        canon_whir_tail(b, p) == Some(
            (
                (w.final_poly, w.final_pow_witness, w.final_queries, w.final_sumcheck),
                p + flat(toks_whir_tail((w.final_poly, w.final_pow_witness, w.final_queries, w.final_sumcheck))).len(),
            ),
        ),
{
    let gf = crate::format::f_final_poly();
    let gq = crate::format::f_query();
    let gs = crate::format::f_sumcheck();
    if let Some(v) = w.final_poly {
        lemma_write_final_poly(v);
    }
    if let Some(x) = w.final_sumcheck {
        lemma_write_sumcheck(x);
    }
    lemma_write_val(w.final_pow_witness);
    lemma_write_queries(w.final_queries);
    let t1 = toks_option(w.final_poly, gf);
    let t2 = crate::format::t_val(w.final_pow_witness);
    let t3 = toks_vec(w.final_queries, gq);
    let t4 = toks_option(w.final_sumcheck, gs);
    lemma_split(b, p, t1 + t2 + t3, t4);
    lemma_split(b, p, t1 + t2, t3);
    lemma_split(b, p, t1, t2);
    let p1 = p + flat(t1).len();
    let p2 = p1 + flat(t2).len();
    let p3 = p2 + flat(t3).len();
    lemma_write_option(w.final_poly, gf, c_final_poly(), b, p);
    assert(written_at(w.final_pow_witness, crate::format::f_val(), c_val(), b, p1));
    lemma_write_vec(w.final_queries, gq, c_query(), b, p2);
    lemma_write_option(w.final_sumcheck, gs, c_sumcheck(), b, p3);
}

#[verifier::spinoff_prover]
proof fn lemma_write_whir(w: SpecWhir)
    requires
        w.wf(),
    ensures
        writes_canon(w, crate::format::f_whir(), c_whir()),
{
    let h = (w.initial_commitment, w.initial_ood_answers, w.initial_sumcheck, w.rounds);
    let t = (w.final_poly, w.final_pow_witness, w.final_queries, w.final_sumcheck);
    assert(toks_whir_head(h) + toks_whir_tail(t) =~= crate::format::toks_whir(w));
    assert forall|b: Seq<u8>, p: nat| #[trigger] written_at(w, crate::format::f_whir(), c_whir(), b, p) by {
        if holds_at(b, p, flat(crate::format::f_whir()(w))) {
            lemma_split(b, p, toks_whir_head(h), toks_whir_tail(t));
            lemma_write_whir_head(w, b, p);
            lemma_write_whir_tail(w, b, p + flat(toks_whir_head(h)).len());
        }
    }
}

/// Every well-formed proof is encoded canonically: the canonical reading of its bytes gives
/// the public inputs and the proof back. With `lemma_canonical_blob_reencodes`, the blobs read
/// canonically are exactly the encodings of well-formed proofs.
#[verifier::spinoff_prover]
pub proof fn lemma_encoding_is_canonical(public_inputs: Seq<Seq<u32>>, proof: SpecProof)
    requires
        crate::model::public_inputs_wf(public_inputs),
        proof.wf(),
    ensures
        canon_blob(blob_bytes(public_inputs, proof)) == Some(SpecBlob { public_inputs, proof }),
{
    let b = blob_bytes(public_inputs, proof);
    let gv = crate::format::f_vals();
    let gl = crate::format::f_len();
    let gw = crate::format::f_whir();
    assert forall|i: int| 0 <= i < public_inputs.len() implies writes_canon(#[trigger] public_inputs[i], gv, c_vals()) by {
        lemma_write_vals(public_inputs[i]);
    }
    assert forall|i: int| 0 <= i < proof.log_bs.len() implies writes_canon(#[trigger] proof.log_bs[i], gl, c_len()) by {
        lemma_write_len_f(proof.log_bs[i]);
    }
    assert forall|i: int| 0 <= i < proof.pcs.len() implies writes_canon(#[trigger] proof.pcs[i], gw, c_whir()) by {
        lemma_write_whir(proof.pcs[i]);
    }
    let t0 = crate::blob::plain(blob_magic());
    let t1 = crate::format::t_u8(1);
    let t2 = toks_vec(public_inputs, gv);
    let t3 = toks_vec(proof.log_bs, gl);
    let t4 = crate::format::t_digest(crate::blob::Mark::Commitment, proof.commitment);
    let t5 = crate::format::toks_piop(proof.piop);
    let t6 = toks_vec(proof.pcs, gw);
    assert(b.subrange(0, b.len() as int) =~= b);
    assert(holds_at(b, 0, flat(t0 + t1 + t2 + t3 + t4 + t5 + t6)));
    lemma_split(b, 0, t0 + t1 + t2 + t3 + t4 + t5, t6);
    lemma_split(b, 0, t0 + t1 + t2 + t3 + t4, t5);
    lemma_split(b, 0, t0 + t1 + t2 + t3, t4);
    lemma_split(b, 0, t0 + t1 + t2, t3);
    lemma_split(b, 0, t0 + t1, t2);
    lemma_split(b, 0, t0, t1);
    lemma_flat_one(Tok { mark: crate::blob::Mark::Plain, bytes: blob_magic() });
    lemma_flat_one(Tok { mark: crate::blob::Mark::Plain, bytes: seq![1u8] });
    assert(b[4] == b.subrange(4, 5)[0]);
    let p2 = 5nat;
    let p3 = p2 + flat(t2).len();
    let p4 = p3 + flat(t3).len();
    let p5 = p4 + flat(t4).len();
    let p6 = p5 + flat(t5).len();
    lemma_write_vec(public_inputs, gv, c_vals(), b, p2);
    lemma_write_vec(proof.log_bs, gl, c_len(), b, p3);
    lemma_write_digest(crate::blob::Mark::Commitment, proof.commitment, b, p4);
    lemma_write_piop(proof.piop, b, p5);
    lemma_write_vec(proof.pcs, gw, c_whir(), b, p6);
}

/// The blobs whose every base-field limb is below the modulus and that the decoder accepts
/// are exactly the encodings of well-formed public inputs and proofs, and decoding such a
/// blob gives back what was encoded.
pub proof fn lemma_canonical_blobs_are_encodings(b: Seq<u8>, v: SpecBlob)
    ensures
        canon_blob(b) == Some(v) <==> (crate::model::public_inputs_wf(v.public_inputs)
            && v.proof.wf() && b == blob_bytes(v.public_inputs, v.proof)),
        canon_blob(b) == Some(v) ==> parse_blob(b) == Ok::<SpecBlob, DecodeError>(v),
{
    if canon_blob(b) == Some(v) {
        lemma_canonical_blob_reencodes(b);
        crate::wellformed::lemma_decoded_reencodes(b);
    }
    if crate::model::public_inputs_wf(v.public_inputs) && v.proof.wf() && b == blob_bytes(
        v.public_inputs,
        v.proof,
    ) {
        lemma_encoding_is_canonical(v.public_inputs, v.proof);
    }
}

/// A query opening whose limbs are all below the modulus is what the decoder reads, from
/// exactly the bytes the encoder writes for it; and the bytes the encoder writes for a
/// well-formed opening are read back canonically, whatever surrounds them.
pub proof fn lemma_canonical_query_opening(b: Seq<u8>, p: nat, q: SpecQuery)
    ensures
        canon_query(b, p) is Some ==> ({
            let (x, r) = canon_query(b, p)->0;
            &&& crate::parse::parse_query(b, p) == Ok::<(SpecQuery, nat), DecodeError>((x, r))
            &&& p <= r <= b.len()
            &&& b.subrange(p as int, r as int) == flat(crate::format::toks_query(x))
        }),
        q.wf() && holds_at(b, p, flat(crate::format::toks_query(q))) ==> canon_query(b, p) == Some(
            (q, p + flat(crate::format::toks_query(q)).len()),
        ),
{
    lemma_canon_query();
    assert(reads_at(c_query(), crate::parse::p_query(), crate::format::f_query(), b, p));
    if q.wf() {
        lemma_write_query(q);
        assert(written_at(q, crate::format::f_query(), c_query(), b, p));
    }
}

} // verus!
