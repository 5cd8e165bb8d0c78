use parallax::book::ConsolidatedBook;
use parallax::double::{Arithmetic, Double, Op, Style};
use parallax::sim::alerting::{Alert, check_feed_data_quality, check_feed_staleness, check_reconciliation, check_rejection_rate};
use parallax::sim::reconcile::ReconciliationReport;
use parallax::sim::report::{BacktestReport, RejectionCount};
use parallax::types::contract::CanonicalContractId;
use parallax::types::market::NormalizedTick;
use parallax::types::orders::ClientOrderId;
use parallax::types::time::Timestamp;
use parallax::types::venue::VenueId;

#[allow(dead_code)]
fn c() -> Arithmetic {
    Arithmetic::new(
        |op: Op, a: u64, b: u64| -> u64 {
            let x = f64::from_bits(a);
            let y = f64::from_bits(b);
            match op {
                Op::Sum => (x + y).to_bits(),
                Op::Difference => (x - y).to_bits(),
                Op::Product => (x * y).to_bits(),
                Op::Quotient => (x / y).to_bits(),
                Op::SquareRoot => x.sqrt().to_bits(),
                Op::Exponential => x.exp().to_bits(),
                Op::Logarithm => x.ln().to_bits(),
                Op::HyperbolicTangent => x.tanh().to_bits(),
                Op::Power => x.powf(y).to_bits(),
                Op::IntegerPower => x.powi(b as i32).to_bits(),
                Op::Floor => x.floor().to_bits(),
                Op::Ceiling => x.ceil().to_bits(),
                Op::OfCount => (a as f64).to_bits(),
                Op::ToIndex => x as u64,
            }
        },
        |style: Style, x: Double| -> String {
            let v = f64::from_bits(x.bits);
            match style {
                Style::Shortest => format!("{v}"),
                Style::TwoPlaces => format!("{v:.2}"),
                Style::FourPlaces => format!("{v:.4}"),
            }
        },
    )
}

#[allow(dead_code)]
fn d(x: f64) -> Double {
    Double::from_bits(x.to_bits())
}

#[allow(dead_code)]
fn f(x: Double) -> f64 {
    f64::from_bits(x.bits)
}

#[test]
fn a_reconciled_report_raises_no_alert() {
    let report = ReconciliationReport {
        positions_loaded: 3,
        open_orders: Vec::new(),
        orders_resolved: 1,
        orders_unresolved: Vec::new(),
        gate_reconciled: true,
    };
    assert_eq!(check_reconciliation(&report), None);
}

#[test]
fn an_unreconciled_report_raises_a_loud_alert_with_the_reasons() {
    let report = ReconciliationReport {
        positions_loaded: 0,
        open_orders: Vec::new(),
        orders_resolved: 0,
        orders_unresolved: vec![(
            ClientOrderId("plx-abc".into()),
            "timed out".to_string(),
        )],
        gate_reconciled: false,
    };
    match check_reconciliation(&report) {
        Some(Alert::ReconciliationMismatch {
            unresolved_orders,
            detail,
        }) => {
            assert_eq!(unresolved_orders, 1);
            assert!(detail.contains("timed out"));
        }
        other => panic!("expected ReconciliationMismatch, got {other:?}"),
    }
}

#[test]
fn a_clean_book_raises_no_feed_data_alert() {
    let book = ConsolidatedBook::new();
    assert_eq!(check_feed_data_quality(&book), None);
}

#[test]
fn a_book_with_a_rejected_tick_raises_an_alert() {
    let mut book = ConsolidatedBook::new();
    book.update(&c(), NormalizedTick {
        venue: VenueId::Kalshi,
        contract: CanonicalContractId("c".into()),
        bid: d(f64::NAN),
        bid_size: d(1.0),
        ask: d(0.5),
        ask_size: d(1.0),
        venue_ts: None,
        receive_ts: Timestamp::from_nanos(0),
    });
    assert_eq!(
        check_feed_data_quality(&book),
        Some(Alert::FeedDataRejected { rejected_ticks: 1 })
    );
}

fn report_with_histogram(histogram: Vec<RejectionCount>) -> BacktestReport {
    BacktestReport {
        rejection_histogram: histogram,
        ..Default::default()
    }
}

#[test]
fn no_feed_stale_entries_raises_no_alert() {
    let report = report_with_histogram(vec![RejectionCount {
        reason: "PriceThroughBook".into(),
        count: 3,
    }]);
    assert_eq!(check_feed_staleness(&report), None);
}

#[test]
fn feed_stale_entries_raise_an_alert_with_the_total_count() {
    let report = report_with_histogram(vec![
        RejectionCount {
            reason: "FeedStale".into(),
            count: 4,
        },
        RejectionCount {
            reason: "PriceThroughBook".into(),
            count: 2,
        },
    ]);
    assert_eq!(
        check_feed_staleness(&report),
        Some(Alert::FeedStaleness { count: 4 })
    );
}

#[test]
fn a_rejection_rate_within_tolerance_of_baseline_raises_no_alert() {
    let report = BacktestReport {
        orders_proposed: 100,
        orders_rejected_by_risk: 12,
        ..Default::default()
    };
    assert_eq!(check_rejection_rate(&c(), &report, d(0.10), d(0.05)), None);
}

#[test]
fn a_rejection_rate_beyond_tolerance_raises_an_alert() {
    let report = BacktestReport {
        orders_proposed: 100,
        orders_rejected_by_risk: 40,
        ..Default::default()
    };
    match check_rejection_rate(&c(), &report, d(0.10), d(0.05)) {
        Some(Alert::RejectionRateAboveBaseline { rate, baseline }) => {
            assert!((f(rate) - 0.40).abs() < 1e-9);
            assert!((f(baseline) - 0.10).abs() < 1e-9);
        }
        other => panic!("expected RejectionRateAboveBaseline, got {other:?}"),
    }
}

#[test]
fn zero_proposed_orders_cannot_divide_by_zero() {
    let report = BacktestReport::default();
    assert_eq!(check_rejection_rate(&c(), &report, d(0.10), d(0.05)), None);
}
