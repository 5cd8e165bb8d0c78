use parallax::alpha::forecast_quality::ForecastQualityTracker;
use parallax::double::{Arithmetic, Double, Op, Style};

#[allow(dead_code)]
fn c() -> Arithmetic {
    Arithmetic::new(
        |op: Op, a: u64, b: u64| -> u64 {
            let x = f64::from_bits(a);
            let y = f64::from_bits(b);
            match op {
                Op::Sum => (x + y).to_bits(),
                Op::Difference => (x - y).to_bits(),
                Op::Product => (x * y).to_bits(),
                Op::Quotient => (x / y).to_bits(),
                Op::SquareRoot => x.sqrt().to_bits(),
                Op::Exponential => x.exp().to_bits(),
                Op::Logarithm => x.ln().to_bits(),
                Op::HyperbolicTangent => x.tanh().to_bits(),
                Op::Power => x.powf(y).to_bits(),
                Op::IntegerPower => x.powi(b as i32).to_bits(),
                Op::Floor => x.floor().to_bits(),
                Op::Ceiling => x.ceil().to_bits(),
                Op::OfCount => (a as f64).to_bits(),
                Op::ToIndex => x as u64,
            }
        },
        |style: Style, x: Double| -> String {
            let v = f64::from_bits(x.bits);
            match style {
                Style::Shortest => format!("{v}"),
                Style::TwoPlaces => format!("{v:.2}"),
                Style::FourPlaces => format!("{v:.4}"),
            }
        },
    )
}

#[allow(dead_code)]
fn d(x: f64) -> Double {
    Double::from_bits(x.to_bits())
}

#[allow(dead_code)]
fn f(x: Double) -> f64 {
    f64::from_bits(x.bits)
}

#[test]
fn perfect_forecasts_score_zero_brier() {
    let mut tracker = ForecastQualityTracker::new();
    for _ in 0..20 {
        tracker.record(&c(), "perfect", d(1.0), true);
        tracker.record(&c(), "perfect", d(0.0), false);
    }
    let brier = f(tracker.brier_score(&c(), "perfect").unwrap());
    assert!(brier < 1e-6, "brier was {brier}");
}

#[test]
fn always_fifty_fifty_scores_a_quarter_brier_against_balanced_outcomes() {
    let mut tracker = ForecastQualityTracker::new();
    for i in 0..100 {
        tracker.record(&c(), "coinflip", d(0.5), i % 2 == 0);
    }
    let brier = f(tracker.brier_score(&c(), "coinflip").unwrap());
    assert!((brier - 0.25).abs() < 1e-6, "brier was {brier}");
}

#[test]
fn a_confidently_wrong_source_has_negative_skill() {
    let mut tracker = ForecastQualityTracker::new();
    for _ in 0..30 {
        tracker.record(&c(), "overconfident", d(0.99), false);
        tracker.record(&c(), "overconfident", d(0.01), true);
    }
    let skill = f(tracker.skill_score(&c(), "overconfident").unwrap());
    assert!(skill < 0.0, "skill was {skill}");
}

#[test]
fn a_source_beating_the_base_rate_has_positive_skill() {
    let mut tracker = ForecastQualityTracker::new();
    for i in 0..100 {
        let outcome = i % 2 == 0;
        let p = if outcome { 0.9 } else { 0.1 };
        tracker.record(&c(), "good", d(p), outcome);
    }
    let skill = f(tracker.skill_score(&c(), "good").unwrap());
    assert!(skill > 0.5, "skill was {skill}");
}

#[test]
fn reliability_curve_reports_calibrated_buckets_close_to_the_diagonal() {
    let mut tracker = ForecastQualityTracker::new();
    for i in 0..100 {
        tracker.record(&c(), "calibrated", d(0.7), i % 10 < 7);
    }
    let curve = tracker.reliability_curve(&c(), "calibrated");
    assert_eq!(curve.len(), 1);
    assert!((f(curve[0].predicted_mean) - 0.7).abs() < 1e-9);
    assert!((f(curve[0].actual_frequency) - 0.7).abs() < 1e-9);
    assert_eq!(curve[0].count, 100);
}

#[test]
fn an_unseen_source_has_no_stats() {
    let tracker = ForecastQualityTracker::new();
    assert!(tracker.brier_score(&c(), "nobody").is_none());
    assert!(tracker.skill_score(&c(), "nobody").is_none());
    assert!(tracker.reliability_curve(&c(), "nobody").is_empty());
}

#[test]
fn sources_are_tracked_independently() {
    let mut tracker = ForecastQualityTracker::new();
    for _ in 0..10 {
        tracker.record(&c(), "a", d(1.0), true);
        tracker.record(&c(), "b", d(0.0), true);
    }
    assert!(f(tracker.brier_score(&c(), "a").unwrap()) < f(tracker.brier_score(&c(), "b").unwrap()));
}
