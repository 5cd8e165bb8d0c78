use parallax::double::{Arithmetic, Double, Op, Style};
use parallax::types::contract::CanonicalContractId;
use parallax::types::market::{BookDepth, DepthLevel, NormalizedTick};
use parallax::types::time::Timestamp;
use parallax::types::venue::VenueId;

#[allow(dead_code)]
fn c() -> Arithmetic {
    Arithmetic::new(
        |op: Op, a: u64, b: u64| -> u64 {
            let x = f64::from_bits(a);
            let y = f64::from_bits(b);
            match op {
                Op::Sum => (x + y).to_bits(),
                Op::Difference => (x - y).to_bits(),
                Op::Product => (x * y).to_bits(),
                Op::Quotient => (x / y).to_bits(),
                Op::SquareRoot => x.sqrt().to_bits(),
                Op::Exponential => x.exp().to_bits(),
                Op::Logarithm => x.ln().to_bits(),
                Op::HyperbolicTangent => x.tanh().to_bits(),
                Op::Power => x.powf(y).to_bits(),
                Op::IntegerPower => x.powi(b as i32).to_bits(),
                Op::Floor => x.floor().to_bits(),
                Op::Ceiling => x.ceil().to_bits(),
                Op::OfCount => (a as f64).to_bits(),
                Op::ToIndex => x as u64,
            }
        },
        |style: Style, x: Double| -> String {
            let v = f64::from_bits(x.bits);
            match style {
                Style::Shortest => format!("{v}"),
                Style::TwoPlaces => format!("{v:.2}"),
                Style::FourPlaces => format!("{v:.4}"),
            }
        },
    )
}

#[allow(dead_code)]
fn d(x: f64) -> Double {
    Double::from_bits(x.to_bits())
}

#[allow(dead_code)]
fn f(x: Double) -> f64 {
    f64::from_bits(x.bits)
}

fn levels(pairs: &[(f64, f64)]) -> Vec<DepthLevel> {
    pairs
        .iter()
        .map(|&(price, size)| DepthLevel { price: d(price), size: d(size) })
        .collect()
}

#[test]
fn walk_averages_across_multiple_levels_when_size_exceeds_top_level() {
    let asks = levels(&[(0.60, 40.0), (0.62, 60.0)]);
    let result = BookDepth::walk(&c(), &asks, d(70.0)).unwrap();
    assert_eq!(f(result.filled_size), 70.0);
    let expected_notional = 40.0 * 0.60 + 30.0 * 0.62;
    assert!((f(result.avg_price) - expected_notional / 70.0).abs() < 1e-9);
}

#[test]
fn walk_reports_partial_fill_when_book_is_thinner_than_target() {
    let asks = levels(&[(0.60, 10.0), (0.62, 5.0)]);
    let result = BookDepth::walk(&c(), &asks, d(100.0)).unwrap();
    assert_eq!(f(result.filled_size), 15.0);
    assert!((f(result.avg_price) - (10.0 * 0.60 + 5.0 * 0.62) / 15.0).abs() < 1e-9);
}

#[test]
fn walk_matches_top_of_book_price_when_target_fits_in_first_level() {
    let asks = levels(&[(0.55, 100.0), (0.60, 100.0)]);
    let result = BookDepth::walk(&c(), &asks, d(20.0)).unwrap();
    assert_eq!(f(result.filled_size), 20.0);
    assert!((f(result.avg_price) - 0.55).abs() < 1e-9);
}

#[test]
fn walk_returns_none_for_empty_book_or_nonpositive_size() {
    assert!(BookDepth::walk(&c(), &[], d(10.0)).is_none());
    assert!(BookDepth::walk(&c(), &levels(&[(0.5, 10.0)]), d(0.0)).is_none());
    assert!(BookDepth::walk(&c(), &levels(&[(0.5, 10.0)]), d(-5.0)).is_none());
}

fn tick(bid: f64, ask: f64) -> NormalizedTick {
    NormalizedTick {
        venue: VenueId::Kalshi,
        contract: CanonicalContractId("wx.temp.chicago.gt_869.2026-08-12.nws_official".into()),
        bid: d(bid),
        bid_size: d(10.0),
        ask: d(ask),
        ask_size: d(10.0),
        venue_ts: None,
        receive_ts: Timestamp::from_nanos(0),
    }
}

#[test]
fn validate_rejects_a_nan_price_that_would_otherwise_clear_every_comparison() {
    assert!(tick(f64::NAN, 0.60).validate(&c()).is_err());
    assert!(tick(0.55, f64::NAN).validate(&c()).is_err());
}

#[test]
fn validate_rejects_out_of_range_prices_and_negative_sizes() {
    assert!(tick(-0.1, 0.60).validate(&c()).is_err());
    assert!(tick(0.55, 1.1).validate(&c()).is_err());
    let mut t = tick(0.55, 0.60);
    t.bid_size = d(-1.0);
    assert!(t.validate(&c()).is_err());
}

#[test]
fn validate_accepts_a_well_formed_tick() {
    assert!(tick(0.55, 0.60).validate(&c()).is_ok());
}
