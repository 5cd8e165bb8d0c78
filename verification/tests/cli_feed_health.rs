use parallax::cli::feed_health::{FeedHealthAlert, FeedHealthMonitor};
use parallax::double::{Arithmetic, Double, Op, Style};
use parallax::types::venue::VenueId;

#[allow(dead_code)]
fn c() -> Arithmetic {
    Arithmetic::new(
        |op: Op, a: u64, b: u64| -> u64 {
            let x = f64::from_bits(a);
            let y = f64::from_bits(b);
            match op {
                Op::Sum => (x + y).to_bits(),
                Op::Difference => (x - y).to_bits(),
                Op::Product => (x * y).to_bits(),
                Op::Quotient => (x / y).to_bits(),
                Op::SquareRoot => x.sqrt().to_bits(),
                Op::Exponential => x.exp().to_bits(),
                Op::Logarithm => x.ln().to_bits(),
                Op::HyperbolicTangent => x.tanh().to_bits(),
                Op::Power => x.powf(y).to_bits(),
                Op::IntegerPower => x.powi(b as i32).to_bits(),
                Op::Floor => x.floor().to_bits(),
                Op::Ceiling => x.ceil().to_bits(),
                Op::OfCount => (a as f64).to_bits(),
                Op::ToIndex => x as u64,
            }
        },
        |style: Style, x: Double| -> String {
            let v = f64::from_bits(x.bits);
            match style {
                Style::Shortest => format!("{v}"),
                Style::TwoPlaces => format!("{v:.2}"),
                Style::FourPlaces => format!("{v:.4}"),
            }
        },
    )
}

#[allow(dead_code)]
fn d(x: f64) -> Double {
    Double::from_bits(x.to_bits())
}

#[allow(dead_code)]
fn f(x: Double) -> f64 {
    f64::from_bits(x.bits)
}

#[test]
fn feed_health_a_single_failure_below_the_threshold_raises_no_alert() {
    let mut monitor = FeedHealthMonitor::new(3);
    assert_eq!(monitor.record(VenueId::Kalshi, false), None);
    assert_eq!(monitor.record(VenueId::Kalshi, false), None);
}

#[test]
fn feed_health_reaching_the_threshold_raises_an_alert_with_the_streak_length() {
    let mut monitor = FeedHealthMonitor::new(3);
    monitor.record(VenueId::Kalshi, false);
    monitor.record(VenueId::Kalshi, false);
    assert_eq!(
        monitor.record(VenueId::Kalshi, false),
        Some(FeedHealthAlert {
            venue: VenueId::Kalshi,
            consecutive_failures: 3
        })
    );
}

#[test]
fn feed_health_continuing_failure_keeps_alerting_past_the_threshold() {
    let mut monitor = FeedHealthMonitor::new(2);
    monitor.record(VenueId::Polymarket, false);
    monitor.record(VenueId::Polymarket, false);
    assert_eq!(
        monitor.record(VenueId::Polymarket, false),
        Some(FeedHealthAlert {
            venue: VenueId::Polymarket,
            consecutive_failures: 3
        })
    );
}

#[test]
fn feed_health_a_success_resets_the_streak() {
    let mut monitor = FeedHealthMonitor::new(2);
    monitor.record(VenueId::Kalshi, false);
    assert_eq!(monitor.record(VenueId::Kalshi, true), None);
    assert_eq!(monitor.record(VenueId::Kalshi, false), None);
}

#[test]
fn venues_are_tracked_independently() {
    let mut monitor = FeedHealthMonitor::new(2);
    monitor.record(VenueId::Kalshi, false);
    monitor.record(VenueId::Kalshi, false);
    assert_eq!(monitor.record(VenueId::Polymarket, false), None);
}

#[test]
fn feed_health_zero_configuration_is_clamped_to_at_least_one() {
    let mut monitor = FeedHealthMonitor::new(0);
    assert!(monitor.record(VenueId::Kalshi, false).is_some());
}
