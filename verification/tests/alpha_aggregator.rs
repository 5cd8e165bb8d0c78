use parallax::alpha::aggregator::{AggregateError, AggregatorConfig, aggregate, try_aggregate};
use parallax::double::{Arithmetic, Double, Op, Style};
use parallax::types::alpha::{EstimateKind, ProbabilityEstimate, StalenessPolicy};
use parallax::types::contract::{CanonicalContractId, CanonicalContractSpec, Direction, EventClass};
use parallax::types::time::Timestamp;

#[allow(dead_code)]
fn c() -> Arithmetic {
    Arithmetic::new(
        |op: Op, a: u64, b: u64| -> u64 {
            let x = f64::from_bits(a);
            let y = f64::from_bits(b);
            match op {
                Op::Sum => (x + y).to_bits(),
                Op::Difference => (x - y).to_bits(),
                Op::Product => (x * y).to_bits(),
                Op::Quotient => (x / y).to_bits(),
                Op::SquareRoot => x.sqrt().to_bits(),
                Op::Exponential => x.exp().to_bits(),
                Op::Logarithm => x.ln().to_bits(),
                Op::HyperbolicTangent => x.tanh().to_bits(),
                Op::Power => x.powf(y).to_bits(),
                Op::IntegerPower => x.powi(b as i32).to_bits(),
                Op::Floor => x.floor().to_bits(),
                Op::Ceiling => x.ceil().to_bits(),
                Op::OfCount => (a as f64).to_bits(),
                Op::ToIndex => x as u64,
            }
        },
        |style: Style, x: Double| -> String {
            let v = f64::from_bits(x.bits);
            match style {
                Style::Shortest => format!("{v}"),
                Style::TwoPlaces => format!("{v:.2}"),
                Style::FourPlaces => format!("{v:.4}"),
            }
        },
    )
}

#[allow(dead_code)]
fn d(x: f64) -> Double {
    Double::from_bits(x.to_bits())
}

#[allow(dead_code)]
fn f(x: Double) -> f64 {
    f64::from_bits(x.bits)
}

fn contract() -> CanonicalContractId {
    CanonicalContractSpec {
        event_class: EventClass("wx.temp".into()),
        location: "chicago".into(),
        threshold: 869,
        direction: Direction::GreaterThan,
        resolution_window: "2026-08-12".into(),
        resolution_source: "nws_official".into(),
    }
    .to_id()
}

fn est(source: &str, prob: f64, std: f64, ts: i64) -> ProbabilityEstimate {
    ProbabilityEstimate {
        source: source.into(),
        contract: contract(),
        probability: d(prob),
        std_dev: d(std),
        as_of: Timestamp::from_nanos(ts),
        kind: EstimateKind::Absolute,
        staleness: StalenessPolicy::Decays,
        correlation_group: None,
    }
}

#[test]
fn agreeing_sources_narrow_the_band() {
    let cfg = AggregatorConfig::default();
    let estimates = vec![est("wx", 0.66, 0.03, 0), est("news", 0.65, 0.05, 0)];
    let fv = aggregate(&c(), &contract(), &estimates, &cfg, Timestamp::from_nanos(0)).unwrap();
    assert!(f(fv.band_width(&c())) < 0.10, "band was {}", f(fv.band_width(&c())));
}

#[test]
fn disagreeing_sources_widen_the_band() {
    let cfg = AggregatorConfig::default();
    let estimates = vec![est("wx", 0.30, 0.03, 0), est("news", 0.80, 0.03, 0)];
    let fv = aggregate(&c(), &contract(), &estimates, &cfg, Timestamp::from_nanos(0)).unwrap();
    assert!(f(fv.band_width(&c())) > 0.30, "band was {}", f(fv.band_width(&c())));
}

#[test]
fn stale_estimate_is_down_weighted() {
    let cfg = AggregatorConfig::default();
    let as_of = Timestamp::from_nanos(120_000_000_000);
    let fresh = est("fresh", 0.50, 0.02, 120_000_000_000);
    let stale = est("stale", 0.90, 0.02, 0);
    let fv = aggregate(&c(), &contract(), &[fresh, stale], &cfg, as_of).unwrap();
    assert!(f(fv.midpoint) < 0.65, "midpoint was {}", f(fv.midpoint));
}

#[test]
fn empty_estimates_yield_no_opinion() {
    let cfg = AggregatorConfig::default();
    assert!(aggregate(&c(), &contract(), &[], &cfg, Timestamp::from_nanos(0)).is_none());
}

#[test]
fn a_permanent_estimate_does_not_decay_with_age() {
    let cfg = AggregatorConfig::default();
    let mut settled = est("oracle", 0.99, 0.01, 0);
    settled.staleness = StalenessPolicy::Permanent;
    let as_of = Timestamp::from_nanos(300_000_000_000);
    let weak_prior = est("weak-prior", 0.5, 0.3, as_of.as_nanos());
    let fv = aggregate(&c(), &contract(), &[settled, weak_prior], &cfg, as_of).unwrap();
    assert!(f(fv.midpoint) > 0.9, "midpoint was {}", f(fv.midpoint));
}

#[test]
fn correlated_sources_do_not_narrow_the_band_as_much_as_independent_ones() {
    let cfg = AggregatorConfig::default();
    let mut correlated = Vec::new();
    for i in 0..5 {
        let mut e = est(&format!("member-{i}"), 0.70, 0.05, 0);
        e.correlation_group = Some("ensemble-a".into());
        correlated.push(e);
    }
    let mut independent = Vec::new();
    for i in 0..5 {
        independent.push(est(&format!("model-{i}"), 0.70, 0.05, 0));
    }
    let correlated_fv =
        aggregate(&c(), &contract(), &correlated, &cfg, Timestamp::from_nanos(0)).unwrap();
    let independent_fv =
        aggregate(&c(), &contract(), &independent, &cfg, Timestamp::from_nanos(0)).unwrap();
    assert!(
        f(correlated_fv.band_width(&c())) > f(independent_fv.band_width(&c())),
        "correlated={} independent={}",
        f(correlated_fv.band_width(&c())),
        f(independent_fv.band_width(&c()))
    );
    assert!(f(correlated_fv.effective_sample_size) < f(independent_fv.effective_sample_size));
}

#[test]
fn effective_sample_size_of_many_highly_correlated_sources_approaches_one() {
    let cfg = AggregatorConfig {
        assumed_correlation: d(0.99),
        ..AggregatorConfig::default()
    };
    let mut estimates = Vec::new();
    for i in 0..500 {
        let mut e = est(&format!("m{i}"), 0.6, 0.05, 0);
        e.correlation_group = Some("g".into());
        estimates.push(e);
    }
    let fv = aggregate(&c(), &contract(), &estimates, &cfg, Timestamp::from_nanos(0)).unwrap();
    assert!(
        f(fv.effective_sample_size) < 2.0,
        "500 sources at rho=0.99 should read as ~1 independent sample, got {}",
        f(fv.effective_sample_size)
    );
}

#[test]
fn a_log_odds_shift_moves_a_coin_flip_more_than_a_near_certainty() {
    let cfg = AggregatorConfig::default();
    let coin_flip = vec![
        est("base", 0.50, 0.03, 0),
        ProbabilityEstimate {
            kind: EstimateKind::LogOddsShift,
            probability: d(1.0),
            std_dev: d(0.3),
            correlation_group: None,
            ..est("headline", 0.0, 0.0, 0)
        },
    ];
    let near_certain = vec![
        est("base", 0.97, 0.01, 0),
        ProbabilityEstimate {
            kind: EstimateKind::LogOddsShift,
            probability: d(1.0),
            std_dev: d(0.3),
            correlation_group: None,
            ..est("headline", 0.0, 0.0, 0)
        },
    ];
    let fv_flip = aggregate(&c(), &contract(), &coin_flip, &cfg, Timestamp::from_nanos(0)).unwrap();
    let fv_certain =
        aggregate(&c(), &contract(), &near_certain, &cfg, Timestamp::from_nanos(0)).unwrap();
    let flip_move = f(fv_flip.midpoint) - 0.50;
    let certain_move = f(fv_certain.midpoint) - 0.97;
    assert!(
        flip_move > certain_move,
        "flip_move={flip_move} certain_move={certain_move}"
    );
}

#[test]
fn a_zero_shift_is_a_true_no_op() {
    let cfg = AggregatorConfig::default();
    let estimates = vec![
        est("base", 0.66, 0.03, 0),
        ProbabilityEstimate {
            kind: EstimateKind::LogOddsShift,
            probability: d(0.0),
            std_dev: d(0.3),
            correlation_group: None,
            ..est("headline", 0.0, 0.0, 0)
        },
    ];
    let without_shift = aggregate(
        &c(),
        &contract(),
        &[est("base", 0.66, 0.03, 0)],
        &cfg,
        Timestamp::from_nanos(0),
    )
    .unwrap();
    let with_shift =
        aggregate(&c(), &contract(), &estimates, &cfg, Timestamp::from_nanos(0)).unwrap();
    assert!((f(with_shift.midpoint) - f(without_shift.midpoint)).abs() < 1e-9);
}

#[test]
fn estimates_for_a_different_contract_are_dropped_not_pooled() {
    let cfg = AggregatorConfig::default();
    let other = CanonicalContractId("some.other.contract".into());
    let mismatched = ProbabilityEstimate {
        contract: other,
        ..est("routing-bug", 0.99, 0.01, 0)
    };
    let correct = est("real", 0.40, 0.05, 0);
    let fv = aggregate(
        &c(),
        &contract(),
        &[mismatched, correct],
        &cfg,
        Timestamp::from_nanos(0),
    )
    .unwrap();
    assert!(f(fv.midpoint) < 0.5, "midpoint was {}", f(fv.midpoint));
}

#[test]
fn try_aggregate_reports_no_usable_estimates_when_nothing_matches() {
    let cfg = AggregatorConfig::default();
    let other = CanonicalContractId("some.other.contract".into());
    let mismatched = ProbabilityEstimate {
        contract: other,
        ..est("routing-bug", 0.99, 0.01, 0)
    };
    assert_eq!(
        try_aggregate(&c(), &contract(), &[mismatched], &cfg, Timestamp::from_nanos(0)).unwrap_err(),
        AggregateError::NoUsableEstimates
    );
}

#[test]
fn every_output_satisfies_fair_values_own_validate() {
    let cfg = AggregatorConfig::default();
    let cases = vec![
        vec![est("a", 0.0001, 0.001, 0)],
        vec![est("a", 0.9999, 0.001, 0)],
        vec![est("a", 0.5, 1e-9, 0)],
        vec![est("a", 0.5, 0.5, 0), est("b", 0.5, 0.5, 1_000_000_000_000)],
    ];
    for estimates in cases {
        let fv = aggregate(
        &c(),
            &contract(),
            &estimates,
            &cfg,
            Timestamp::from_nanos(2_000_000_000_000),
        )
        .unwrap();
        assert!(fv.validate(&c()).is_ok(), "validate failed for {fv:?}");
    }
}
