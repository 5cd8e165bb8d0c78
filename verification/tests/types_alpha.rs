use parallax::double::{Arithmetic, Double, Op, Style};
use parallax::types::alpha::{EstimateKind, FairValue, ProbabilityEstimate, StalenessPolicy};
use parallax::types::contract::CanonicalContractId;
use parallax::types::time::Timestamp;

#[allow(dead_code)]
fn c() -> Arithmetic {
    Arithmetic::new(
        |op: Op, a: u64, b: u64| -> u64 {
            let x = f64::from_bits(a);
            let y = f64::from_bits(b);
            match op {
                Op::Sum => (x + y).to_bits(),
                Op::Difference => (x - y).to_bits(),
                Op::Product => (x * y).to_bits(),
                Op::Quotient => (x / y).to_bits(),
                Op::SquareRoot => x.sqrt().to_bits(),
                Op::Exponential => x.exp().to_bits(),
                Op::Logarithm => x.ln().to_bits(),
                Op::HyperbolicTangent => x.tanh().to_bits(),
                Op::Power => x.powf(y).to_bits(),
                Op::IntegerPower => x.powi(b as i32).to_bits(),
                Op::Floor => x.floor().to_bits(),
                Op::Ceiling => x.ceil().to_bits(),
                Op::OfCount => (a as f64).to_bits(),
                Op::ToIndex => x as u64,
            }
        },
        |style: Style, x: Double| -> String {
            let v = f64::from_bits(x.bits);
            match style {
                Style::Shortest => format!("{v}"),
                Style::TwoPlaces => format!("{v:.2}"),
                Style::FourPlaces => format!("{v:.4}"),
            }
        },
    )
}

#[allow(dead_code)]
fn d(x: f64) -> Double {
    Double::from_bits(x.to_bits())
}

#[allow(dead_code)]
fn f(x: Double) -> f64 {
    f64::from_bits(x.bits)
}

fn contract() -> CanonicalContractId {
    CanonicalContractId("wx.temp.chicago.gt_869.2026-08-12.nws_official".into())
}

fn fv(midpoint: f64, band_low: f64, band_high: f64) -> FairValue {
    FairValue {
        contract: contract(),
        midpoint: d(midpoint),
        band_low: d(band_low),
        band_high: d(band_high),
        as_of: Timestamp::from_nanos(0),
        inputs: vec![],
        effective_sample_size: d(1.0),
    }
}

#[test]
fn validate_accepts_a_well_formed_fair_value() {
    assert!(fv(0.6, 0.5, 0.7).validate(&c()).is_ok());
}

#[test]
fn validate_rejects_a_midpoint_outside_its_own_band() {
    assert!(fv(0.9, 0.5, 0.7).validate(&c()).is_err());
}

#[test]
fn validate_rejects_out_of_range_probabilities() {
    assert!(fv(1.2, 0.5, 1.2).validate(&c()).is_err());
}

#[test]
fn absolute_estimate_requires_a_probability_in_range() {
    let est = ProbabilityEstimate {
        source: "x".into(),
        contract: contract(),
        probability: d(1.5),
        std_dev: d(0.1),
        as_of: Timestamp::from_nanos(0),
        kind: EstimateKind::Absolute,
        staleness: StalenessPolicy::Decays,
        correlation_group: None,
    };
    assert!(est.validate(&c()).is_err());
}

#[test]
fn log_odds_shift_estimate_allows_any_finite_value() {
    let est = ProbabilityEstimate {
        source: "x".into(),
        contract: contract(),
        probability: d(-3.5),
        std_dev: d(0.1),
        as_of: Timestamp::from_nanos(0),
        kind: EstimateKind::LogOddsShift,
        staleness: StalenessPolicy::Decays,
        correlation_group: None,
    };
    assert!(est.validate(&c()).is_ok());
}

#[test]
fn zero_or_negative_std_dev_is_rejected() {
    let est = ProbabilityEstimate {
        source: "x".into(),
        contract: contract(),
        probability: d(0.5),
        std_dev: d(0.0),
        as_of: Timestamp::from_nanos(0),
        kind: EstimateKind::Absolute,
        staleness: StalenessPolicy::Decays,
        correlation_group: None,
    };
    assert!(est.validate(&c()).is_err());
}
