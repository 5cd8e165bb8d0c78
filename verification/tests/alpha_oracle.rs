use parallax::alpha::aggregator::{AggregatorConfig, aggregate};
use parallax::alpha::source::AlphaSource;
use parallax::alpha::payload::{OraclePayload, Payload};
use parallax::alpha::sources::oracle::OracleResolutionSource;
use parallax::double::{Arithmetic, Double, Op, Style};
use parallax::types::alpha::{AlphaEventKind, EstimateKind, ProbabilityEstimate, RawEvent, StalenessPolicy};
use parallax::types::time::Timestamp;

#[allow(dead_code)]
fn c() -> Arithmetic {
    Arithmetic::new(
        |op: Op, a: u64, b: u64| -> u64 {
            let x = f64::from_bits(a);
            let y = f64::from_bits(b);
            match op {
                Op::Sum => (x + y).to_bits(),
                Op::Difference => (x - y).to_bits(),
                Op::Product => (x * y).to_bits(),
                Op::Quotient => (x / y).to_bits(),
                Op::SquareRoot => x.sqrt().to_bits(),
                Op::Exponential => x.exp().to_bits(),
                Op::Logarithm => x.ln().to_bits(),
                Op::HyperbolicTangent => x.tanh().to_bits(),
                Op::Power => x.powf(y).to_bits(),
                Op::IntegerPower => x.powi(b as i32).to_bits(),
                Op::Floor => x.floor().to_bits(),
                Op::Ceiling => x.ceil().to_bits(),
                Op::OfCount => (a as f64).to_bits(),
                Op::ToIndex => x as u64,
            }
        },
        |style: Style, x: Double| -> String {
            let v = f64::from_bits(x.bits);
            match style {
                Style::Shortest => format!("{v}"),
                Style::TwoPlaces => format!("{v:.2}"),
                Style::FourPlaces => format!("{v:.4}"),
            }
        },
    )
}

#[allow(dead_code)]
fn d(x: f64) -> Double {
    Double::from_bits(x.to_bits())
}

#[allow(dead_code)]
fn f(x: Double) -> f64 {
    f64::from_bits(x.bits)
}

fn ev(
    resolved_yes: bool,
    challenge_window_ends_ns: Option<i64>,
    disputed: bool,
    now_ns: i64,
) -> RawEvent {
    RawEvent {
        source: "uma".into(),
        kind: AlphaEventKind::Oracle,
        publish_ts: None,
        receive_ts: Timestamp::from_nanos(now_ns),
        payload: Payload {
            oracle: Some(OraclePayload {
                contract: "wx.temp.chicago.gt_869.2026-08-12.nws_official".into(),
                resolved_yes,
                challenge_window_ends_ns,
                disputed,
            }),
            ..Payload::unknown()
        },
    }
}

#[test]
fn a_finalized_resolution_is_permanent_and_near_certain() {
    let src = OracleResolutionSource::new("uma-oo");
    let est = src.on_event(&c(), &ev(true, Some(100), false, 200)).unwrap();
    assert_eq!(est.staleness, StalenessPolicy::Permanent);
    assert!(f(est.probability) > 0.99);
}

#[test]
fn a_proposal_still_inside_its_window_is_lower_confidence_and_decays() {
    let src = OracleResolutionSource::new("uma-oo");
    let est = src.on_event(&c(), &ev(true, Some(1_000), false, 100)).unwrap();
    assert_eq!(est.staleness, StalenessPolicy::Decays);
    assert!(
        f(est.probability) < 0.99,
        "probability was {}",
        f(est.probability)
    );
    assert!(f(est.std_dev) > 0.01);
}

#[test]
fn a_disputed_proposal_produces_no_estimate_at_all() {
    let src = OracleResolutionSource::new("uma-oo");
    assert!(src.on_event(&c(), &ev(true, Some(1_000), true, 100)).is_none());
}

#[test]
fn no_challenge_window_is_treated_as_immediately_final() {
    let src = OracleResolutionSource::new("uma-oo");
    let est = src.on_event(&c(), &ev(false, None, false, 0)).unwrap();
    assert_eq!(est.staleness, StalenessPolicy::Permanent);
    assert!(f(est.probability) < 0.01);
}

#[test]
fn oracle_resolution_dominates_and_collapses_the_band() {
    let src = OracleResolutionSource::new("uma-oo");
    let oracle_est = src.on_event(&c(), &ev(true, Some(100), false, 200)).unwrap();
    let prior = ProbabilityEstimate {
        source: "hrrr".into(),
        contract: oracle_est.contract.clone(),
        probability: d(0.4),
        std_dev: d(0.15),
        as_of: Timestamp::from_nanos(0),
        kind: EstimateKind::Absolute,
        staleness: StalenessPolicy::Decays,
        correlation_group: None,
    };

    let fv = aggregate(
        &c(),
        &oracle_est.contract.clone(),
        &[prior, oracle_est],
        &AggregatorConfig::default(),
        Timestamp::from_nanos(200),
    )
    .unwrap();

    assert!(f(fv.midpoint) > 0.95, "midpoint was {}", f(fv.midpoint));
    assert!(f(fv.band_width(&c())) < 0.05, "band was {}", f(fv.band_width(&c())));
}
