use parallax::double::{Arithmetic, Double, Op, Style};
use parallax::strategy::relative_value::RelativeValueMonitor;
use parallax::types::contract::{CanonicalContractId, CanonicalContractSpec, Direction, EventClass};

#[allow(dead_code)]
fn c() -> Arithmetic {
    Arithmetic::new(
        |op: Op, a: u64, b: u64| -> u64 {
            let x = f64::from_bits(a);
            let y = f64::from_bits(b);
            match op {
                Op::Sum => (x + y).to_bits(),
                Op::Difference => (x - y).to_bits(),
                Op::Product => (x * y).to_bits(),
                Op::Quotient => (x / y).to_bits(),
                Op::SquareRoot => x.sqrt().to_bits(),
                Op::Exponential => x.exp().to_bits(),
                Op::Logarithm => x.ln().to_bits(),
                Op::HyperbolicTangent => x.tanh().to_bits(),
                Op::Power => x.powf(y).to_bits(),
                Op::IntegerPower => x.powi(b as i32).to_bits(),
                Op::Floor => x.floor().to_bits(),
                Op::Ceiling => x.ceil().to_bits(),
                Op::OfCount => (a as f64).to_bits(),
                Op::ToIndex => x as u64,
            }
        },
        |style: Style, x: Double| -> String {
            let v = f64::from_bits(x.bits);
            match style {
                Style::Shortest => format!("{v}"),
                Style::TwoPlaces => format!("{v:.2}"),
                Style::FourPlaces => format!("{v:.4}"),
            }
        },
    )
}

#[allow(dead_code)]
fn d(x: f64) -> Double {
    Double::from_bits(x.to_bits())
}

#[allow(dead_code)]
fn f(x: Double) -> f64 {
    f64::from_bits(x.bits)
}

fn market(window: &str) -> CanonicalContractId {
    CanonicalContractSpec {
        event_class: EventClass("crypto.updown".into()),
        location: "btc".into(),
        threshold: 0,
        direction: Direction::GreaterThan,
        resolution_window: window.into(),
        resolution_source: "binance".into(),
    }
    .to_id()
}

#[test]
fn returns_none_until_two_prior_observations_exist() {
    let mut monitor = RelativeValueMonitor::new(d(0.001));
    let (a, b) = (market("5m"), market("15m"));
    assert!(monitor.update_and_score(&c(), &a, &b, d(0.02)).is_none());
    assert!(monitor.update_and_score(&c(), &a, &b, d(0.021)).is_none());
    assert!(monitor.update_and_score(&c(), &a, &b, d(0.02)).is_some());
}

#[test]
fn a_large_deviation_from_the_typical_gap_scores_high() {
    let mut monitor = RelativeValueMonitor::new(d(0.001));
    let (a, b) = (market("5m"), market("15m"));
    for g in [0.019, 0.021, 0.020, 0.0195, 0.0205, 0.020] {
        monitor.update_and_score(&c(), &a, &b, d(g));
    }
    let score = monitor.update_and_score(&c(), &a, &b, d(0.08)).map(f).unwrap();
    assert!(score.abs() > 3.0, "score was {score}");
}

#[test]
fn ordering_of_arguments_does_not_change_the_pairs_identity() {
    let mut forward = RelativeValueMonitor::new(d(0.001));
    let mut reversed = RelativeValueMonitor::new(d(0.001));
    let (a, b) = (market("5m"), market("15m"));
    for g in [0.02, 0.021] {
        forward.update_and_score(&c(), &a, &b, d(g));
        reversed.update_and_score(&c(), &b, &a, d(-g));
    }
    let score_forward = forward.update_and_score(&c(), &a, &b, d(0.05)).map(f).unwrap();
    let score_reversed = reversed.update_and_score(&c(), &b, &a, d(-0.05)).map(f).unwrap();
    assert!(
        (score_forward - score_reversed).abs() < 1e-9,
        "forward={score_forward} reversed={score_reversed}"
    );
}

#[test]
fn typical_gap_and_volatility_match_a_naive_sample_calculation() {
    let mut monitor = RelativeValueMonitor::new(d(0.0));
    let (a, b) = (market("5m"), market("15m"));
    let gaps = [0.01, 0.03, 0.02, 0.025, 0.015];
    for g in gaps {
        monitor.update_and_score(&c(), &a, &b, d(g));
    }
    let naive_mean = gaps.iter().sum::<f64>() / gaps.len() as f64;
    let naive_var =
        gaps.iter().map(|g| (g - naive_mean).powi(2)).sum::<f64>() / (gaps.len() as f64 - 1.0);
    assert!((monitor.typical_gap(&c(), &a, &b).map(f).unwrap() - naive_mean).abs() < 1e-9);
    assert!((monitor.gap_volatility(&c(), &a, &b).map(f).unwrap() - naive_var.sqrt()).abs() < 1e-9);
}

#[test]
fn different_pairs_are_tracked_independently() {
    let mut monitor = RelativeValueMonitor::new(d(0.001));
    let (a, b, third) = (market("5m"), market("15m"), market("30m"));
    for g in [0.01, 0.011, 0.0105] {
        monitor.update_and_score(&c(), &a, &b, d(g));
    }
    for g in [0.05, 0.052, 0.051] {
        monitor.update_and_score(&c(), &a, &third, d(g));
    }
    assert!((monitor.typical_gap(&c(), &a, &b).map(f).unwrap() - 0.0105).abs() < 1e-6);
    assert!((monitor.typical_gap(&c(), &a, &third).map(f).unwrap() - 0.051).abs() < 1e-6);
}
