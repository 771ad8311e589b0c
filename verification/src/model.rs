//! The proof sections carried by a proof blob, their mathematical views and what makes them
//! well formed.
use crate::field::{is_canonical_val, Challenge};
use vstd::prelude::*;

verus! {

impl View for Challenge {
    type V = Challenge;

    open spec fn view(&self) -> Challenge {
        *self
    }
}

/// A LogUp fraction `numer / denom` over the extension field.
#[derive(Clone, Copy, Debug, PartialEq, Eq, Structural)]
pub struct Fraction {
    pub numer: Challenge,
    pub denom: Challenge,
}

impl View for Fraction {
    type V = Fraction;

    open spec fn view(&self) -> Fraction {
        *self
    }
}

// ---------------------------------------------------------------------------------------------
// Mathematical models of the proof sections.
// ---------------------------------------------------------------------------------------------

pub ghost struct SpecBatchSumcheck {
    pub compressed_round_polys: Seq<Seq<Challenge>>,
    pub evals: Seq<Seq<Challenge>>,
}

pub ghost struct SpecFractionalSum {
    pub sums: Seq<Seq<Fraction>>,
    pub layers: Seq<SpecBatchSumcheck>,
}

pub ghost struct SpecSkip {
    pub skip_rounds: usize,
    pub zero_check_round_poly: Seq<Challenge>,
    pub eval_check_round_poly: Seq<Challenge>,
}

pub ghost struct SpecAir {
    pub univariate_skips: Seq<SpecSkip>,
    pub regular: SpecBatchSumcheck,
    pub univariate_eval_check: SpecBatchSumcheck,
}

pub ghost struct SpecPiop {
    pub fractional_sum: SpecFractionalSum,
    pub air: SpecAir,
}

pub ghost struct SpecSumcheck {
    pub polynomial_evaluations: Seq<(Challenge, Challenge)>,
    pub pow_witnesses: Seq<u32>,
}

pub ghost enum SpecQuery {
    Base { values: Seq<u32>, proof: Seq<Seq<u64>> },
    Extension { values: Seq<Challenge>, proof: Seq<Seq<u64>> },
}

pub ghost struct SpecRound {
    pub commitment: Seq<u64>,
    pub ood_answers: Seq<Challenge>,
    pub pow_witness: u32,
    pub queries: Seq<SpecQuery>,
    pub sumcheck: SpecSumcheck,
}

pub ghost struct SpecWhir {
    pub initial_commitment: Seq<u64>,
    pub initial_ood_answers: Seq<Challenge>,
    pub initial_sumcheck: SpecSumcheck,
    pub rounds: Seq<SpecRound>,
    pub final_poly: Option<Seq<Challenge>>,
    pub final_pow_witness: u32,
    pub final_queries: Seq<SpecQuery>,
    pub final_sumcheck: Option<SpecSumcheck>,
}

pub ghost struct SpecProof {
    pub log_bs: Seq<usize>,
    pub commitment: Seq<u64>,
    pub piop: SpecPiop,
    pub pcs: Seq<SpecWhir>,
}

pub ghost struct SpecBlob {
    pub public_inputs: Seq<Seq<u32>>,
    pub proof: SpecProof,
}

// ---------------------------------------------------------------------------------------------
// Executable proof sections.
// ---------------------------------------------------------------------------------------------

/// The batched sumcheck transcript: compressed round polynomials and claimed evaluations.
#[derive(Clone, Debug, PartialEq, Eq)]
pub struct BatchSumcheckProof {
    pub compressed_round_polys: Vec<Vec<Challenge>>,
    pub evals: Vec<Vec<Challenge>>,
}

/// The LogUp fractional-sum proof: per-AIR fraction sums and one batched sumcheck per layer.
#[derive(Clone, Debug, PartialEq, Eq)]
pub struct FractionalSumProof {
    pub sums: Vec<Vec<Fraction>>,
    pub layers: Vec<BatchSumcheckProof>,
}

/// The univariate-skip part of an AIR proof.
#[derive(Clone, Debug, PartialEq, Eq)]
pub struct AirUnivariateSkipProof {
    pub skip_rounds: usize,
    pub zero_check_round_poly: Vec<Challenge>,
    pub eval_check_round_poly: Vec<Challenge>,
}

/// The AIR sumcheck proof.
#[derive(Clone, Debug, PartialEq, Eq)]
pub struct AirProof {
    pub univariate_skips: Vec<AirUnivariateSkipProof>,
    pub regular: BatchSumcheckProof,
    pub univariate_eval_check: BatchSumcheckProof,
}

/// The PIOP transcript: fractional sum and AIR parts.
#[derive(Clone, Debug, PartialEq, Eq)]
pub struct PiopProof {
    pub fractional_sum: FractionalSumProof,
    pub air: AirProof,
}

/// A WHIR sumcheck transcript: per round the evaluations at 0 and 2, and the PoW witnesses.
#[derive(Clone, Debug, PartialEq, Eq)]
pub struct SumcheckData {
    pub polynomial_evaluations: Vec<[Challenge; 2]>,
    pub pow_witnesses: Vec<u32>,
}

/// A Merkle opening of one query, over base-field or extension-field leaves.
#[derive(Clone, Debug, PartialEq, Eq)]
pub enum QueryOpening {
    Base { values: Vec<u32>, proof: Vec<[u64; 4]> },
    Extension { values: Vec<Challenge>, proof: Vec<[u64; 4]> },
}

/// One WHIR folding round.
#[derive(Clone, Debug, PartialEq, Eq)]
pub struct WhirRoundProof {
    pub commitment: [u64; 4],
    pub ood_answers: Vec<Challenge>,
    pub pow_witness: u32,
    pub queries: Vec<QueryOpening>,
    pub sumcheck: SumcheckData,
}

/// A WHIR opening proof.
#[derive(Clone, Debug, PartialEq, Eq)]
pub struct WhirProof {
    pub initial_commitment: [u64; 4],
    pub initial_ood_answers: Vec<Challenge>,
    pub initial_sumcheck: SumcheckData,
    pub rounds: Vec<WhirRoundProof>,
    pub final_poly: Option<Vec<Challenge>>,
    pub final_pow_witness: u32,
    pub final_queries: Vec<QueryOpening>,
    pub final_sumcheck: Option<SumcheckData>,
}

/// A HyperPlonk proof over KoalaBear with Keccak Merkle commitments.
#[derive(Clone, Debug, PartialEq, Eq)]
pub struct HyperPlonkProof {
    pub log_bs: Vec<usize>,
    pub commitment: [u64; 4],
    pub piop: PiopProof,
    pub pcs: Vec<WhirProof>,
}

/// The public inputs and proof read back from a proof blob.
#[derive(Clone, Debug, PartialEq, Eq)]
pub struct DecodedProofBlob {
    pub public_inputs: Vec<Vec<u32>>,
    pub proof: HyperPlonkProof,
}

// ---------------------------------------------------------------------------------------------
// Views.
// ---------------------------------------------------------------------------------------------

pub open spec fn polys_view(v: Seq<Vec<Challenge>>) -> Seq<Seq<Challenge>> {
    v.map_values(|p: Vec<Challenge>| p@)
}

impl View for BatchSumcheckProof {
    type V = SpecBatchSumcheck;

    open spec fn view(&self) -> SpecBatchSumcheck {
        SpecBatchSumcheck {
            compressed_round_polys: polys_view(self.compressed_round_polys@),
            evals: polys_view(self.evals@),
        }
    }
}

impl View for FractionalSumProof {
    type V = SpecFractionalSum;

    open spec fn view(&self) -> SpecFractionalSum {
        SpecFractionalSum {
            sums: self.sums@.map_values(|v: Vec<Fraction>| v@),
            layers: self.layers@.map_values(|b: BatchSumcheckProof| b@),
        }
    }
}

impl View for AirUnivariateSkipProof {
    type V = SpecSkip;

    open spec fn view(&self) -> SpecSkip {
        SpecSkip {
            skip_rounds: self.skip_rounds,
            zero_check_round_poly: self.zero_check_round_poly@,
            eval_check_round_poly: self.eval_check_round_poly@,
        }
    }
}

impl View for AirProof {
    type V = SpecAir;

    open spec fn view(&self) -> SpecAir {
        SpecAir {
            univariate_skips: self.univariate_skips@.map_values(|s: AirUnivariateSkipProof| s@),
            regular: self.regular@,
            univariate_eval_check: self.univariate_eval_check@,
        }
    }
}

impl View for PiopProof {
    type V = SpecPiop;

    open spec fn view(&self) -> SpecPiop {
        SpecPiop { fractional_sum: self.fractional_sum@, air: self.air@ }
    }
}

pub open spec fn pair_view(e: [Challenge; 2]) -> (Challenge, Challenge) {
    (e@[0], e@[1])
}

impl View for SumcheckData {
    type V = SpecSumcheck;

    open spec fn view(&self) -> SpecSumcheck {
        SpecSumcheck {
            polynomial_evaluations: self.polynomial_evaluations@.map_values(
                |e: [Challenge; 2]| pair_view(e),
            ),
            pow_witnesses: self.pow_witnesses@,
        }
    }
}

pub open spec fn digests_view(v: Seq<[u64; 4]>) -> Seq<Seq<u64>> {
    v.map_values(|d: [u64; 4]| d@)
}

impl View for QueryOpening {
    type V = SpecQuery;

    open spec fn view(&self) -> SpecQuery {
        match self {
            QueryOpening::Base { values, proof } => SpecQuery::Base {
                values: values@,
                proof: digests_view(proof@),
            },
            QueryOpening::Extension { values, proof } => SpecQuery::Extension {
                values: values@,
                proof: digests_view(proof@),
            },
        }
    }
}

pub open spec fn queries_view(v: Seq<QueryOpening>) -> Seq<SpecQuery> {
    v.map_values(|q: QueryOpening| q@)
}

impl View for WhirRoundProof {
    type V = SpecRound;

    open spec fn view(&self) -> SpecRound {
        SpecRound {
            commitment: self.commitment@,
            ood_answers: self.ood_answers@,
            pow_witness: self.pow_witness,
            queries: queries_view(self.queries@),
            sumcheck: self.sumcheck@,
        }
    }
}

impl View for WhirProof {
    type V = SpecWhir;

    open spec fn view(&self) -> SpecWhir {
        SpecWhir {
            initial_commitment: self.initial_commitment@,
            initial_ood_answers: self.initial_ood_answers@,
            initial_sumcheck: self.initial_sumcheck@,
            rounds: self.rounds@.map_values(|r: WhirRoundProof| r@),
            final_poly: match self.final_poly {
                Some(p) => Some(p@),
                None => None,
            },
            final_pow_witness: self.final_pow_witness,
            final_queries: queries_view(self.final_queries@),
            final_sumcheck: match self.final_sumcheck {
                Some(s) => Some(s@),
                None => None,
            },
        }
    }
}

impl View for HyperPlonkProof {
    type V = SpecProof;

    open spec fn view(&self) -> SpecProof {
        SpecProof {
            log_bs: self.log_bs@,
            commitment: self.commitment@,
            piop: self.piop@,
            pcs: self.pcs@.map_values(|w: WhirProof| w@),
        }
    }
}

pub open spec fn vals_view(v: Seq<Vec<u32>>) -> Seq<Seq<u32>> {
    v.map_values(|x: Vec<u32>| x@)
}

impl View for DecodedProofBlob {
    type V = SpecBlob;

    open spec fn view(&self) -> SpecBlob {
        SpecBlob { public_inputs: vals_view(self.public_inputs@), proof: self.proof@ }
    }
}

// ---------------------------------------------------------------------------------------------
// Well-formed values: what the blob format carries without loss.
// ---------------------------------------------------------------------------------------------

/// A length that a `usize` can hold.
pub open spec fn fits(n: nat) -> bool {
    n <= usize::MAX
}

pub open spec fn ok_vals(v: Seq<u32>) -> bool {
    fits(v.len()) && forall|i: int| 0 <= i < v.len() ==> is_canonical_val(#[trigger] v[i])
}

pub open spec fn ok_chals(v: Seq<Challenge>) -> bool {
    fits(v.len()) && forall|i: int| 0 <= i < v.len() ==> (#[trigger] v[i]).is_canonical()
}

pub open spec fn ok_polys(v: Seq<Seq<Challenge>>) -> bool {
    fits(v.len()) && forall|i: int| 0 <= i < v.len() ==> ok_chals(#[trigger] v[i])
}

pub open spec fn ok_digests(v: Seq<Seq<u64>>) -> bool {
    fits(v.len()) && forall|i: int| 0 <= i < v.len() ==> (#[trigger] v[i]).len() == 4
}

/// `n` is a power of two.
pub open spec fn is_pow2(n: nat) -> bool
    decreases n,
{
    if n == 1 {
        true
    } else if n < 2 || n % 2 == 1 {
        false
    } else {
        is_pow2(n / 2)
    }
}

impl Fraction {
    pub open spec fn wf(self) -> bool {
        self.numer.is_canonical() && self.denom.is_canonical()
    }
}

pub open spec fn ok_fractions(v: Seq<Fraction>) -> bool {
    fits(v.len()) && forall|i: int| 0 <= i < v.len() ==> (#[trigger] v[i]).wf()
}

impl SpecBatchSumcheck {
    pub open spec fn wf(self) -> bool {
        ok_polys(self.compressed_round_polys) && ok_polys(self.evals)
    }
}

impl SpecFractionalSum {
    pub open spec fn wf(self) -> bool {
        &&& fits(self.sums.len())
        &&& forall|i: int| 0 <= i < self.sums.len() ==> ok_fractions(#[trigger] self.sums[i])
        &&& fits(self.layers.len())
        &&& forall|i: int| 0 <= i < self.layers.len() ==> (#[trigger] self.layers[i]).wf()
    }
}

impl SpecSkip {
    pub open spec fn wf(self) -> bool {
        ok_chals(self.zero_check_round_poly) && ok_chals(self.eval_check_round_poly)
    }
}

impl SpecAir {
    pub open spec fn wf(self) -> bool {
        &&& fits(self.univariate_skips.len())
        &&& forall|i: int|
            0 <= i < self.univariate_skips.len() ==> (#[trigger] self.univariate_skips[i]).wf()
        &&& self.regular.wf()
        &&& self.univariate_eval_check.wf()
    }
}

impl SpecPiop {
    pub open spec fn wf(self) -> bool {
        self.fractional_sum.wf() && self.air.wf()
    }
}

pub open spec fn pair_wf(e: (Challenge, Challenge)) -> bool {
    e.0.is_canonical() && e.1.is_canonical()
}

impl SpecSumcheck {
    pub open spec fn wf(self) -> bool {
        &&& fits(self.polynomial_evaluations.len())
        &&& forall|i: int|
            0 <= i < self.polynomial_evaluations.len() ==> pair_wf(
                #[trigger] self.polynomial_evaluations[i],
            )
        &&& ok_vals(self.pow_witnesses)
    }
}

impl SpecQuery {
    pub open spec fn wf(self) -> bool {
        match self {
            SpecQuery::Base { values, proof } => ok_vals(values) && ok_digests(proof),
            SpecQuery::Extension { values, proof } => ok_chals(values) && ok_digests(proof),
        }
    }
}

pub open spec fn queries_wf(v: Seq<SpecQuery>) -> bool {
    fits(v.len()) && forall|i: int| 0 <= i < v.len() ==> (#[trigger] v[i]).wf()
}

impl SpecRound {
    pub open spec fn wf(self) -> bool {
        &&& self.commitment.len() == 4
        &&& ok_chals(self.ood_answers)
        &&& is_canonical_val(self.pow_witness)
        &&& queries_wf(self.queries)
        &&& self.sumcheck.wf()
    }
}

impl SpecWhir {
    pub open spec fn wf(self) -> bool {
        &&& self.initial_commitment.len() == 4
        &&& ok_chals(self.initial_ood_answers)
        &&& self.initial_sumcheck.wf()
        &&& fits(self.rounds.len())
        &&& forall|i: int| 0 <= i < self.rounds.len() ==> (#[trigger] self.rounds[i]).wf()
        &&& match self.final_poly {
            Some(p) => ok_chals(p) && is_pow2(p.len()),
            None => true,
        }
        &&& is_canonical_val(self.final_pow_witness)
        &&& queries_wf(self.final_queries)
        &&& match self.final_sumcheck {
            Some(s) => s.wf(),
            None => true,
        }
    }
}

impl SpecProof {
    /// Every field value is canonical, every digest has four words, every final polynomial
    /// has a power-of-two number of evaluations and every list length fits in a `usize`.
    pub open spec fn wf(self) -> bool {
        &&& fits(self.log_bs.len())
        &&& self.commitment.len() == 4
        &&& self.piop.wf()
        &&& fits(self.pcs.len())
        &&& forall|i: int| 0 <= i < self.pcs.len() ==> (#[trigger] self.pcs[i]).wf()
    }
}

/// Every public value is canonical and every list length fits in a `usize`.
pub open spec fn public_inputs_wf(v: Seq<Seq<u32>>) -> bool {
    fits(v.len()) && forall|i: int| 0 <= i < v.len() ==> ok_vals(#[trigger] v[i])
}

} // verus!
