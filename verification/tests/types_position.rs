use parallax::double::{Arithmetic, Double, Op, Style};
use parallax::types::contract::{CanonicalContractId, CanonicalContractSpec, Direction, EventClass};
use parallax::types::position::Position;
use parallax::types::venue::VenueId;

#[allow(dead_code)]
fn c() -> Arithmetic {
    Arithmetic::new(
        |op: Op, a: u64, b: u64| -> u64 {
            let x = f64::from_bits(a);
            let y = f64::from_bits(b);
            match op {
                Op::Sum => (x + y).to_bits(),
                Op::Difference => (x - y).to_bits(),
                Op::Product => (x * y).to_bits(),
                Op::Quotient => (x / y).to_bits(),
                Op::SquareRoot => x.sqrt().to_bits(),
                Op::Exponential => x.exp().to_bits(),
                Op::Logarithm => x.ln().to_bits(),
                Op::HyperbolicTangent => x.tanh().to_bits(),
                Op::Power => x.powf(y).to_bits(),
                Op::IntegerPower => x.powi(b as i32).to_bits(),
                Op::Floor => x.floor().to_bits(),
                Op::Ceiling => x.ceil().to_bits(),
                Op::OfCount => (a as f64).to_bits(),
                Op::ToIndex => x as u64,
            }
        },
        |style: Style, x: Double| -> String {
            let v = f64::from_bits(x.bits);
            match style {
                Style::Shortest => format!("{v}"),
                Style::TwoPlaces => format!("{v:.2}"),
                Style::FourPlaces => format!("{v:.4}"),
            }
        },
    )
}

#[allow(dead_code)]
fn d(x: f64) -> Double {
    Double::from_bits(x.to_bits())
}

#[allow(dead_code)]
fn f(x: Double) -> f64 {
    f64::from_bits(x.bits)
}

fn contract() -> CanonicalContractId {
    CanonicalContractSpec {
        event_class: EventClass("wx.temp".into()),
        location: "chicago".into(),
        threshold: 869,
        direction: Direction::GreaterThan,
        resolution_window: "2026-08-12".into(),
        resolution_source: "nws_official".into(),
    }
    .to_id()
}

fn pos() -> Position {
    Position::flat(VenueId::Kalshi, contract())
}

#[test]
fn opening_a_position_sets_avg_price_and_realizes_nothing() {
    let mut p = pos();
    let realized = f(p.apply_fill(&c(), d(10.0), d(0.50), d(0.0)));
    assert_eq!(realized, 0.0);
    assert_eq!(f(p.qty), 10.0);
    assert_eq!(f(p.avg_price), 0.50);
}

#[test]
fn adding_in_the_same_direction_blends_the_average_price() {
    let mut p = pos();
    f(p.apply_fill(&c(), d(10.0), d(0.50), d(0.0)));
    f(p.apply_fill(&c(), d(5.0), d(0.70), d(0.0)));
    assert_eq!(f(p.qty), 15.0);
    assert!((f(p.avg_price) - (0.50 * 10.0 + 0.70 * 5.0) / 15.0).abs() < 1e-9);
}

#[test]
fn reducing_realizes_pnl_against_the_existing_average_and_leaves_it_unchanged() {
    let mut p = pos();
    f(p.apply_fill(&c(), d(10.0), d(0.50), d(0.0)));
    let realized = f(p.apply_fill(&c(), d(-4.0), d(0.60), d(0.0)));
    assert!((realized - 0.4).abs() < 1e-9, "realized was {realized}");
    assert_eq!(f(p.qty), 6.0);
    assert_eq!(f(p.avg_price), 0.50, "average must not move on a pure reduce");
}

#[test]
fn flipping_through_flat_resets_avg_price_to_the_flipping_fills_price() {
    let mut p = pos();
    f(p.apply_fill(&c(), d(10.0), d(0.50), d(0.0)));
    let realized = f(p.apply_fill(&c(), d(-15.0), d(0.60), d(0.0)));
    assert!((realized - 1.0).abs() < 1e-9, "realized was {realized}");
    assert_eq!(f(p.qty), -5.0);
    assert_eq!(f(p.avg_price), 0.60);
}

#[test]
fn short_covered_at_a_lower_price_realizes_a_profit() {
    let mut p = pos();
    f(p.apply_fill(&c(), d(-10.0), d(0.50), d(0.0)));
    let realized = f(p.apply_fill(&c(), d(10.0), d(0.40), d(0.0)));
    assert!((realized - 1.0).abs() < 1e-9, "realized was {realized}");
    assert!(p.is_flat());
}

#[test]
fn exact_offsetting_fill_snaps_cleanly_to_flat_without_nan() {
    let mut p = pos();
    f(p.apply_fill(&c(), d(10.0), d(0.50), d(0.0)));
    f(p.apply_fill(&c(), d(-10.0), d(0.55), d(0.0)));
    assert!(p.is_flat());
    assert_eq!(f(p.avg_price), 0.0);
    assert!(!f(p.avg_price).is_nan());
}

#[test]
fn dust_sized_residual_position_does_not_produce_nan_on_the_next_fill() {
    let mut p = pos();
    p.qty = d(1e-11);
    p.avg_price = d(0.50);
    f(p.apply_fill(&c(), d(-1e-11), d(0.50), d(0.0)));
    assert!(f(p.qty).is_finite());
    assert!(f(p.avg_price).is_finite());
    assert!(!f(p.avg_price).is_nan());
}

#[test]
fn fees_accumulate_independently_of_realized_pnl() {
    let mut p = pos();
    f(p.apply_fill(&c(), d(10.0), d(0.50), d(0.05)));
    f(p.apply_fill(&c(), d(-10.0), d(0.60), d(0.03)));
    assert!((f(p.fees_paid) - 0.08).abs() < 1e-9);
    assert!((f(p.realized_pnl) - 1.0).abs() < 1e-9);
}

#[test]
fn validate_rejects_non_finite_fields() {
    let mut p = pos();
    p.qty = d(f64::NAN);
    assert!(p.validate(&c()).is_err());
}

#[test]
fn validate_rejects_avg_price_outside_probability_range_when_not_flat() {
    let mut p = pos();
    p.qty = d(10.0);
    p.avg_price = d(1.5);
    assert!(p.validate(&c()).is_err());
}

#[test]
fn validate_allows_a_stale_avg_price_once_flat() {
    let mut p = pos();
    p.qty = d(0.0);
    p.avg_price = d(0.0);
    assert!(p.validate(&c()).is_ok());
}
