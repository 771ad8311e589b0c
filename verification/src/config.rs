//! Prover and verifier configuration: the polynomial commitment scheme, the Fiat-Shamir
//! challenger, and the number of univariate skip rounds of the AIR sumcheck.
use core::marker::PhantomData;
use vstd::prelude::*;

verus! {

/// Univariate skip rounds used unless a configuration says otherwise.
pub const DEFAULT_UNIVARIATE_SKIP_ROUNDS: usize = 6;

/// What a proof configuration provides.
pub trait HyperPlonkGenericConfig {
    /// The PCS used to commit to trace polynomials.
    type Pcs;

    /// The field from which most random challenges are drawn.
    type Challenge;

    /// The challenger (Fiat-Shamir) implementation used.
    type Challenger;

    /// The PCS used by this proof configuration.
    fn pcs(&self) -> &Self::Pcs;

    /// A fresh initialization of the challenger used by this proof configuration.
    fn initialize_challenger(&self) -> Self::Challenger;

    /// Number of univariate skip rounds to use in the prover's AIR sumcheck path.
    fn univariate_skip_rounds(&self) -> (r: usize)
        default_ensures
            r == DEFAULT_UNIVARIATE_SKIP_ROUNDS,
    {
        DEFAULT_UNIVARIATE_SKIP_ROUNDS
    }
}

/// A proof configuration: a PCS, an initialized challenger and a number of univariate skip
/// rounds.
#[derive(Debug)]
pub struct HyperPlonkConfig<Pcs, Challenge, Challenger> {
    /// The PCS used to commit polynomials and prove opening proofs.
    pcs: Pcs,
    /// An initialized instance of the challenger.
    challenger: Challenger,
    /// Number of rounds to skip in univariate AIR sumcheck.
    univariate_skip_rounds: usize,
    _phantom: PhantomData<Challenge>,
}

impl<Pcs, Challenge, Challenger> HyperPlonkConfig<Pcs, Challenge, Challenger> {
    /// The PCS held.
    pub closed spec fn pcs_spec(&self) -> Pcs {
        self.pcs
    }

    /// The initialized challenger held.
    pub closed spec fn challenger_spec(&self) -> Challenger {
        self.challenger
    }

    /// The number of univariate skip rounds.
    pub closed spec fn skip_rounds(&self) -> usize {
        self.univariate_skip_rounds
    }

    /// A configuration with the default number of univariate skip rounds.
    pub fn new(pcs: Pcs, challenger: Challenger) -> (c: Self)
        ensures
            c.pcs_spec() == pcs,
            c.challenger_spec() == challenger,
            c.skip_rounds() == DEFAULT_UNIVARIATE_SKIP_ROUNDS,
    {
        Self {
            pcs,
            challenger,
            univariate_skip_rounds: DEFAULT_UNIVARIATE_SKIP_ROUNDS,
            _phantom: PhantomData,
        }
    }

    /// The same configuration with another number of univariate skip rounds.
    pub fn with_univariate_skip_rounds(self, univariate_skip_rounds: usize) -> (c: Self)
        ensures
            c.pcs_spec() == self.pcs_spec(),
            c.challenger_spec() == self.challenger_spec(),
            c.skip_rounds() == univariate_skip_rounds,
    {
        let mut c = self;
        c.univariate_skip_rounds = univariate_skip_rounds;
        c
    }

    /// The number of univariate skip rounds.
    pub fn get_univariate_skip_rounds(&self) -> (r: usize)
        ensures
            r == self.skip_rounds(),
    {
        self.univariate_skip_rounds
    }
}

impl<Pcs, Challenge, Challenger: Clone> HyperPlonkGenericConfig for HyperPlonkConfig<
    Pcs,
    Challenge,
    Challenger,
> {
    type Pcs = Pcs;

    type Challenge = Challenge;

    type Challenger = Challenger;

    fn pcs(&self) -> (p: &Pcs)
        ensures
            *p == self.pcs_spec(),
    {
        &self.pcs
    }

    fn initialize_challenger(&self) -> (c: Challenger)
        ensures
            cloned::<Challenger>(self.challenger_spec(), c),
    {
        self.challenger.clone()
    }

    fn univariate_skip_rounds(&self) -> (r: usize)
        ensures
            r == self.skip_rounds(),
    {
        self.univariate_skip_rounds
    }
}

} // verus!
