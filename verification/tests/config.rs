use hyperplonk_evm::config::{
    HyperPlonkConfig, HyperPlonkGenericConfig, DEFAULT_UNIVARIATE_SKIP_ROUNDS,
};

/// A stand-in PCS: the configuration only stores it.
#[derive(Debug, Clone, PartialEq)]
struct TestPcs {
    security_level: usize,
}

/// A stand-in challenger: the configuration only stores and clones it.
#[derive(Debug, Clone, PartialEq)]
struct TestChallenger {
    transcript: Vec<u8>,
}

fn make_config() -> HyperPlonkConfig<TestPcs, u64, TestChallenger> {
    HyperPlonkConfig::new(
        TestPcs { security_level: 100 },
        TestChallenger { transcript: Vec::new() },
    )
}

#[test]
fn default_univariate_skip_is_6() {
    let config = make_config();
    assert_eq!(
        config.get_univariate_skip_rounds(),
        DEFAULT_UNIVARIATE_SKIP_ROUNDS
    );
}

#[test]
fn builder_sets_univariate_skip_rounds() {
    let config = make_config().with_univariate_skip_rounds(3);
    assert_eq!(config.get_univariate_skip_rounds(), 3);
}

#[test]
fn trait_accessor_returns_overridden_skip() {
    let config = make_config().with_univariate_skip_rounds(4);
    assert_eq!(HyperPlonkGenericConfig::univariate_skip_rounds(&config), 4);
}

#[test]
fn default_skip_rounds_value_is_six() {
    assert_eq!(DEFAULT_UNIVARIATE_SKIP_ROUNDS, 6);
    assert_eq!(HyperPlonkGenericConfig::univariate_skip_rounds(&make_config()), 6);
}

#[test]
fn builder_keeps_pcs_and_challenger() {
    let config = make_config().with_univariate_skip_rounds(9);
    assert_eq!(config.pcs(), &TestPcs { security_level: 100 });
    assert_eq!(
        config.initialize_challenger(),
        TestChallenger { transcript: Vec::new() }
    );
}
