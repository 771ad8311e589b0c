//! What the offsets recorded while encoding locate: for each kind of representative field, the
//! first field of that kind, whose bytes stand at the recorded offset of the blob.
use crate::blob::{
    apply_tok, flat, lemma_flat_append, lemma_single_tok, mark_slot, offsets_after, Mark,
    ProofBlobOffsets, Tok,
};
use crate::format::{
    blob_bytes, blob_magic, f_len, f_val, f_vals, t_digest, t_u8, toks_blob, toks_piop, toks_rep,
    toks_vec, PROOF_BLOB_VERSION,
};
use crate::keccak::digest_bytes;
use vstd::prelude::*;

verus! {

/// The offset recorded for fields of kind `m` (none is recorded for plain fields).
pub open spec fn slot(o: ProofBlobOffsets, m: Mark) -> Option<usize> {
    match m {
        Mark::Plain => None,
        Mark::Commitment => o.commitment_offset,
        Mark::OodAnswer => o.first_initial_ood_answer_offset,
        Mark::SumcheckCoeff => o.first_sumcheck_coeff_offset,
        Mark::MerkleSibling => o.first_merkle_sibling_offset,
        Mark::FinalPoly => o.first_final_poly_offset,
    }
}

/// The `j`-th field of `ts` is the first of kind `m`.
pub open spec fn first_of_kind(ts: Seq<Tok>, m: Mark, j: int) -> bool {
    &&& 0 <= j < ts.len()
    &&& ts[j].mark == m
    &&& forall|k: int| 0 <= k < j ==> (#[trigger] ts[k]).mark != m
}

/// Writing one field records its position in the slot of its kind only, and only if that
/// slot is still empty.
proof fn lemma_apply_tok_slot(o: ProofBlobOffsets, pos: nat, t: Tok, m: Mark)
    requires
        m != Mark::Plain,
    ensures
        slot(apply_tok(o, pos, t), m) == (if t.mark == m {
            mark_slot(slot(o, m), pos)
        } else {
            slot(o, m)
        }),
{
}

/// The bytes of the `j`-th field stand in `flat(ts)` right after those of the fields before it.
proof fn lemma_field_bytes(ts: Seq<Tok>, j: int)
    requires
        0 <= j < ts.len(),
    ensures
        flat(ts).subrange(
            flat(ts.take(j)).len() as int,
            (flat(ts.take(j)).len() + ts[j].bytes.len()) as int,
        ) == ts[j].bytes,
{
    let pre = ts.take(j);
    let one = seq![ts[j]];
    let post = ts.skip(j + 1);
    assert(ts =~= pre + one + post);
    lemma_flat_append(pre + one, post);
    lemma_flat_append(pre, one);
    lemma_single_tok(ProofBlobOffsets::none(), 0, ts[j]);
    let f = flat(ts);
    assert(f =~= flat(pre) + ts[j].bytes + flat(post));
    assert(f.subrange(flat(pre).len() as int, (flat(pre).len() + ts[j].bytes.len()) as int) =~= ts[j].bytes);
}

/// If some field has kind `m`, a first one does.
proof fn lemma_first_exists(ts: Seq<Tok>, m: Mark, k: int)
    requires
        0 <= k < ts.len(),
        ts[k].mark == m,
    ensures
        exists|j: int| first_of_kind(ts, m, j),
    decreases k,
{
    if exists|k2: int| 0 <= k2 < k && (#[trigger] ts[k2]).mark == m {
        let k2 = choose|k2: int| 0 <= k2 < k && (#[trigger] ts[k2]).mark == m;
        lemma_first_exists(ts, m, k2);
    } else {
        assert(first_of_kind(ts, m, k));
    }
}

/// For a kind of representative field, the offset recorded while writing `ts` from byte 0 is
/// that of the first field of that kind, and none is recorded when there is no such field.
pub proof fn lemma_offsets_locate(ts: Seq<Tok>, m: Mark)
    requires
        m != Mark::Plain,
        flat(ts).len() <= usize::MAX,
    ensures
        (slot(offsets_after(ProofBlobOffsets::none(), 0, ts), m) is Some) <==> (exists|j: int|
            first_of_kind(ts, m, j)),
        forall|j: int|
            first_of_kind(ts, m, j) ==> slot(offsets_after(ProofBlobOffsets::none(), 0, ts), m)
                == Some(flat(#[trigger] ts.take(j)).len() as usize),
    decreases ts.len(),
{
    let o = offsets_after(ProofBlobOffsets::none(), 0, ts);
    if ts.len() == 0 {
        assert(slot(o, m) is None);
    } else {
        let init = ts.drop_last();
        let t = ts.last();
        let n = ts.len() - 1;
        lemma_flat_append(init, seq![t]);
        lemma_single_tok(ProofBlobOffsets::none(), 0, t);
        assert(init + seq![t] =~= ts);
        lemma_offsets_locate(init, m);
        let oi = offsets_after(ProofBlobOffsets::none(), 0, init);
        lemma_apply_tok_slot(oi, flat(init).len(), t, m);
        assert(ts.take(n) =~= init);
        assert forall|j: int| 0 <= j < n implies #[trigger] first_of_kind(ts, m, j) == first_of_kind(init, m, j) by {
            assert forall|k: int| 0 <= k < j implies ts[k] == init[k] by {}
            assert(ts.take(j) =~= init.take(j));
        }
        if slot(oi, m) is Some {
            let j0 = choose|j: int| first_of_kind(init, m, j);
            assert(first_of_kind(ts, m, j0));
            assert forall|j: int| first_of_kind(ts, m, j) implies slot(o, m) == Some(
                flat(#[trigger] ts.take(j)).len() as usize,
            ) by {
                if j == n {
                    assert(ts[j0].mark == m);
                    assert(false);
                }
                assert(ts.take(j) =~= init.take(j));
            }
        } else {
            assert(!exists|j: int| first_of_kind(init, m, j));
            if t.mark == m {
                assert(first_of_kind(ts, m, n)) by {
                    assert forall|k: int| 0 <= k < n implies (#[trigger] ts[k]).mark != m by {
                        if ts[k].mark == m {
                            assert(init[k].mark == m);
                            lemma_first_exists(init, m, k);
                        }
                    }
                }
                assert forall|j: int| first_of_kind(ts, m, j) implies slot(o, m) == Some(
                    flat(#[trigger] ts.take(j)).len() as usize,
                ) by {
                    if j < n {
                        assert(first_of_kind(init, m, j));
                    }
                }
            } else {
                assert forall|j: int| first_of_kind(ts, m, j) implies false by {
                    if j < n {
                        assert(first_of_kind(init, m, j));
                    }
                }
            }
        }
    }
}

/// In an encoded proof blob, every recorded offset is that of the first field of its kind, and
/// the blob holds that field's bytes at it.
pub proof fn lemma_blob_offsets(public_inputs: Seq<Seq<u32>>, proof: crate::model::SpecProof, m: Mark)
    requires
        m != Mark::Plain,
        blob_bytes(public_inputs, proof).len() <= usize::MAX,
    ensures
        ({
            let ts = toks_blob(public_inputs, proof);
            let o = offsets_after(ProofBlobOffsets::none(), 0, ts);
            &&& (slot(o, m) is Some) <==> (exists|j: int| first_of_kind(ts, m, j))
            &&& forall|j: int|
                first_of_kind(ts, m, j) ==> {
                    let x = flat(#[trigger] ts.take(j)).len();
                    &&& slot(o, m) == Some(x as usize)
                    &&& blob_bytes(public_inputs, proof).subrange(x as int, (x + ts[j].bytes.len()) as int)
                        == ts[j].bytes
                }
        }),
{
    let ts = toks_blob(public_inputs, proof);
    lemma_offsets_locate(ts, m);
    assert forall|j: int| first_of_kind(ts, m, j) implies blob_bytes(public_inputs, proof).subrange(
        flat(#[trigger] ts.take(j)).len() as int,
        (flat(ts.take(j)).len() + ts[j].bytes.len()) as int,
    ) == ts[j].bytes by {
        lemma_field_bytes(ts, j);
    }
}

/// Every field of `ts` is plain.
pub open spec fn all_plain(ts: Seq<Tok>) -> bool {
    forall|i: int| 0 <= i < ts.len() ==> (#[trigger] ts[i]).mark == Mark::Plain
}

/// Plain fields record nothing.
proof fn lemma_plain_records_nothing(o: ProofBlobOffsets, base: nat, ts: Seq<Tok>)
    requires
        all_plain(ts),
    ensures
        offsets_after(o, base, ts) == o,
    decreases ts.len(),
{
    if ts.len() > 0 {
        lemma_plain_records_nothing(o, base, ts.drop_last());
        assert(ts.last().mark == Mark::Plain);
    }
}

/// Once recorded, the commitment offset stays.
proof fn lemma_commitment_kept(o: ProofBlobOffsets, base: nat, ts: Seq<Tok>)
    requires
        o.commitment_offset is Some,
    ensures
        offsets_after(o, base, ts).commitment_offset == o.commitment_offset,
    decreases ts.len(),
{
    if ts.len() > 0 {
        lemma_commitment_kept(o, base, ts.drop_last());
    }
}

/// The items of a repetition whose items are written with plain fields only are plain.
proof fn lemma_rep_plain<T>(xs: Seq<T>, f: spec_fn(T) -> Seq<Tok>)
    requires
        forall|x: T| all_plain(#[trigger] f(x)),
    ensures
        all_plain(toks_rep(xs, f)),
    decreases xs.len(),
{
    reveal(toks_rep);
    if xs.len() > 0 {
        lemma_rep_plain(xs.drop_last(), f);
        let a = toks_rep(xs.drop_last(), f);
        let b = f(xs.last());
        assert(all_plain(b));
        assert forall|i: int| 0 <= i < (a + b).len() implies (#[trigger] (a + b)[i]).mark == Mark::Plain by {
            if i >= a.len() {
                assert((a + b)[i] == b[i - a.len()]);
            }
        }
    }
}

/// The public inputs and the lengths are written with plain fields only.
proof fn lemma_front_plain(public_inputs: Seq<Seq<u32>>, log_bs: Seq<usize>)
    ensures
        all_plain(toks_vec(public_inputs, f_vals())),
        all_plain(toks_vec(log_bs, f_len())),
{
    assert forall|v: u32| all_plain(#[trigger] f_val()(v)) by {}
    assert forall|v: Seq<u32>| all_plain(#[trigger] f_vals()(v)) by {
        lemma_rep_plain(v, f_val());
        let a = crate::format::t_len(v.len());
        let b = toks_rep(v, f_val());
        assert forall|i: int| 0 <= i < (a + b).len() implies (#[trigger] (a + b)[i]).mark == Mark::Plain by {
            if i >= a.len() {
                assert((a + b)[i] == b[i - a.len()]);
            }
        }
    }
    assert forall|n: usize| all_plain(#[trigger] f_len()(n)) by {}
    lemma_rep_plain(public_inputs, f_vals());
    lemma_rep_plain(log_bs, f_len());
    let l1 = crate::format::t_len(public_inputs.len());
    let r1 = toks_rep(public_inputs, f_vals());
    assert forall|i: int| 0 <= i < (l1 + r1).len() implies (#[trigger] (l1 + r1)[i]).mark == Mark::Plain by {
        if i >= l1.len() {
            assert((l1 + r1)[i] == r1[i - l1.len()]);
        }
    }
    let l2 = crate::format::t_len(log_bs.len());
    let r2 = toks_rep(log_bs, f_len());
    assert forall|i: int| 0 <= i < (l2 + r2).len() implies (#[trigger] (l2 + r2)[i]).mark == Mark::Plain by {
        if i >= l2.len() {
            assert((l2 + r2)[i] == r2[i - l2.len()]);
        }
    }
}

/// In an encoded proof blob the commitment offset is always recorded: it is the position
/// right after the magic, the version, the public inputs and the lengths, and the blob holds
/// the commitment's bytes32 form there.
pub proof fn lemma_commitment_offset(public_inputs: Seq<Seq<u32>>, proof: crate::model::SpecProof)
    requires
        blob_bytes(public_inputs, proof).len() <= usize::MAX,
    ensures
        ({
            let o = offsets_after(ProofBlobOffsets::none(), 0, toks_blob(public_inputs, proof));
            let at = 5 + flat(toks_vec(public_inputs, f_vals())).len() + flat(
                toks_vec(proof.log_bs, f_len()),
            ).len();
            &&& o.commitment_offset == Some(at as usize)
            &&& blob_bytes(public_inputs, proof).subrange(at as int, at + 32int) == digest_bytes(
                proof.commitment,
            )
        }),
{
    let t1 = crate::blob::plain(blob_magic());
    let t2 = t_u8(PROOF_BLOB_VERSION);
    let t3 = toks_vec(public_inputs, f_vals());
    let t4 = toks_vec(proof.log_bs, f_len());
    let t5 = t_digest(Mark::Commitment, proof.commitment);
    let t6 = toks_piop(proof.piop);
    let t7 = toks_vec(proof.pcs, crate::format::f_whir());
    let a = t1 + t2 + t3 + t4;
    let rest = t6 + t7;
    let ts = toks_blob(public_inputs, proof);
    assert(ts =~= a + t5 + rest);
    lemma_front_plain(public_inputs, proof.log_bs);
    assert forall|i: int| 0 <= i < a.len() implies (#[trigger] a[i]).mark == Mark::Plain by {
        if i >= (t1 + t2 + t3).len() {
            assert(a[i] == t4[i - (t1 + t2 + t3).len()]);
        } else if i >= (t1 + t2).len() {
            assert(a[i] == t3[i - (t1 + t2).len()]);
        }
    }
    crate::blob::lemma_offsets_after_append(ProofBlobOffsets::none(), 0, a + t5, rest);
    crate::blob::lemma_offsets_after_append(ProofBlobOffsets::none(), 0, a, t5);
    lemma_plain_records_nothing(ProofBlobOffsets::none(), 0, a);
    lemma_single_tok(ProofBlobOffsets::none(), flat(a).len(), t5[0]);
    assert(t5 =~= seq![t5[0]]);
    let o5 = offsets_after(ProofBlobOffsets::none(), 0, a + t5);
    lemma_flat_append(a, t5);
    lemma_commitment_kept(o5, flat(a + t5).len(), rest);
    lemma_flat_append(a + t5, rest);
    lemma_flat_append(t1 + t2 + t3, t4);
    lemma_flat_append(t1 + t2, t3);
    lemma_flat_append(t1, t2);
    lemma_single_tok(ProofBlobOffsets::none(), 0, t1[0]);
    assert(t1 =~= seq![t1[0]]);
    lemma_single_tok(ProofBlobOffsets::none(), 0, t2[0]);
    assert(t2 =~= seq![t2[0]]);
    let f = flat(a + t5 + rest);
    assert(flat(t5) == digest_bytes(proof.commitment));
    assert(digest_bytes(proof.commitment).len() == 32);
    assert(f =~= flat(a) + digest_bytes(proof.commitment) + flat(rest));
    assert(f.subrange(flat(a).len() as int, flat(a).len() + 32int) =~= digest_bytes(proof.commitment));
}

} // verus!
