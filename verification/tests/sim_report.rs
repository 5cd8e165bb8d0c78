use parallax::double::{Arithmetic, Double, Op, Style};
use parallax::sim::report::BacktestReport;

#[allow(dead_code)]
fn c() -> Arithmetic {
    Arithmetic::new(
        |op: Op, a: u64, b: u64| -> u64 {
            let x = f64::from_bits(a);
            let y = f64::from_bits(b);
            match op {
                Op::Sum => (x + y).to_bits(),
                Op::Difference => (x - y).to_bits(),
                Op::Product => (x * y).to_bits(),
                Op::Quotient => (x / y).to_bits(),
                Op::SquareRoot => x.sqrt().to_bits(),
                Op::Exponential => x.exp().to_bits(),
                Op::Logarithm => x.ln().to_bits(),
                Op::HyperbolicTangent => x.tanh().to_bits(),
                Op::Power => x.powf(y).to_bits(),
                Op::IntegerPower => x.powi(b as i32).to_bits(),
                Op::Floor => x.floor().to_bits(),
                Op::Ceiling => x.ceil().to_bits(),
                Op::OfCount => (a as f64).to_bits(),
                Op::ToIndex => x as u64,
            }
        },
        |style: Style, x: Double| -> String {
            let v = f64::from_bits(x.bits);
            match style {
                Style::Shortest => format!("{v}"),
                Style::TwoPlaces => format!("{v:.2}"),
                Style::FourPlaces => format!("{v:.4}"),
            }
        },
    )
}

#[allow(dead_code)]
fn d(x: f64) -> Double {
    Double::from_bits(x.to_bits())
}

#[allow(dead_code)]
fn f(x: Double) -> f64 {
    f64::from_bits(x.bits)
}

#[test]
fn net_pnl_subtracts_fees_from_gross() {
    let report = BacktestReport {
        realized_pnl: d(10.0),
        unrealized_pnl: d(2.0),
        fees_paid: d(3.0),
        ..Default::default()
    };
    assert!((f(report.gross_pnl(&c())) - 12.0).abs() < 1e-9);
    assert!((f(report.net_pnl(&c())) - 9.0).abs() < 1e-9);
}

#[test]
fn record_rejection_aggregates_by_reason() {
    let mut report = BacktestReport::default();
    report.record_rejection("FeedStale");
    report.record_rejection("FeedStale");
    report.record_rejection("ContractLimitExceeded");
    assert_eq!(report.orders_rejected_by_risk, 3);
    let stale = report
        .rejection_histogram
        .iter()
        .find(|r| r.reason == "FeedStale")
        .unwrap();
    assert_eq!(stale.count, 2);
}

#[test]
fn record_equity_tracks_the_running_max_drawdown() {
    let mut report = BacktestReport::default();
    report.record_equity(&c(), d(100.0));
    report.record_equity(&c(), d(120.0));
    report.record_equity(&c(), d(90.0));
    report.record_equity(&c(), d(110.0));
    assert!((f(report.max_drawdown) - 30.0).abs() < 1e-9);
}

#[test]
fn headline_refuses_to_quote_pnl_once_integrity_is_violated() {
    let report = BacktestReport {
        bus_integrity_violated: true,
        realized_pnl: d(1000.0),
        ..Default::default()
    };
    assert!(report.headline(&c()).contains("INTEGRITY VIOLATED"));
    assert!(!report.headline(&c()).contains("1000"));
}
