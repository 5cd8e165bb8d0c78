use parallax::double::{Arithmetic, Double, Op, Style};
use parallax::strategy::calibration::{Calibrator, FillOutcome};
use parallax::types::venue::VenueId;

#[allow(dead_code)]
fn c() -> Arithmetic {
    Arithmetic::new(
        |op: Op, a: u64, b: u64| -> u64 {
            let x = f64::from_bits(a);
            let y = f64::from_bits(b);
            match op {
                Op::Sum => (x + y).to_bits(),
                Op::Difference => (x - y).to_bits(),
                Op::Product => (x * y).to_bits(),
                Op::Quotient => (x / y).to_bits(),
                Op::SquareRoot => x.sqrt().to_bits(),
                Op::Exponential => x.exp().to_bits(),
                Op::Logarithm => x.ln().to_bits(),
                Op::HyperbolicTangent => x.tanh().to_bits(),
                Op::Power => x.powf(y).to_bits(),
                Op::IntegerPower => x.powi(b as i32).to_bits(),
                Op::Floor => x.floor().to_bits(),
                Op::Ceiling => x.ceil().to_bits(),
                Op::OfCount => (a as f64).to_bits(),
                Op::ToIndex => x as u64,
            }
        },
        |style: Style, x: Double| -> String {
            let v = f64::from_bits(x.bits);
            match style {
                Style::Shortest => format!("{v}"),
                Style::TwoPlaces => format!("{v:.2}"),
                Style::FourPlaces => format!("{v:.4}"),
            }
        },
    )
}

#[allow(dead_code)]
fn d(x: f64) -> Double {
    Double::from_bits(x.to_bits())
}

#[allow(dead_code)]
fn f(x: Double) -> f64 {
    f64::from_bits(x.bits)
}

#[test]
fn repeated_fills_push_fill_probability_toward_one() {
    let mut cal = Calibrator::new(d(0.3));
    for _ in 0..20 {
        cal.record_outcome(&c(), VenueId::Kalshi, FillOutcome::Filled, Some(d(0.01)));
    }
    assert!(f(cal.estimate(VenueId::Kalshi).fill_probability) > 0.9);
}

#[test]
fn repeated_unfilled_orders_push_fill_probability_toward_zero() {
    let mut cal = Calibrator::new(d(0.3));
    for _ in 0..20 {
        cal.record_outcome(&c(), VenueId::Polymarket, FillOutcome::Unfilled, None);
    }
    assert!(f(cal.estimate(VenueId::Polymarket).fill_probability) < 0.1);
}

#[test]
fn rejections_do_not_move_fill_probability_at_all() {
    let mut cal = Calibrator::new(d(0.3));
    for _ in 0..20 {
        cal.record_outcome(&c(), VenueId::Kalshi, FillOutcome::Rejected, None);
    }
    let est = cal.estimate(VenueId::Kalshi);
    assert_eq!(
        f(est.fill_probability), 0.5,
        "rejections must not touch fill_probability"
    );
    assert!(f(est.reject_rate) > 0.9);
}

#[test]
fn unseen_venue_uses_unopinionated_prior() {
    let cal = Calibrator::new(d(0.3));
    let est = cal.estimate(VenueId::Paper);
    assert_eq!(f(est.fill_probability), 0.5);
    assert_eq!(f(est.expected_slippage), 0.0);
    assert_eq!(f(est.reject_rate), 0.0);
}
