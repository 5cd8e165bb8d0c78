use parallax::double::{Arithmetic, Double, Op, Style};
use parallax::alpha::payload::{Payload, WeatherPayload};
use parallax::alpha::sources::weather::WeatherEnsembleSource;
use parallax::risk::gate::{RejectReason, RiskGate, RiskLimits};
use parallax::sim::alerting::{check_feed_staleness, check_reconciliation, Alert};
use parallax::sim::backtest::{reject_reason_label, Action, Backtest};
use parallax::sim::fee_verification::{FeeCheckOutcome, FeeVerifier};
use parallax::sim::reconcile::{ReconcileRequest, Reconciliation, ReconciliationReport};
use parallax::sim::replay::{line_error, replay_lines, ReplayEvent};
use parallax::sim::report::{BacktestReport, RejectionCount};
use parallax::strategy::engines::sniping::{LiquiditySnipingEngine, SnipingConfig};
use parallax::types::alpha::{AlphaEventKind, RawEvent};
use parallax::types::contract::{CanonicalContractId, ClusterKey};
use parallax::types::market::NormalizedTick;
use parallax::types::orders::{
    AckStatus, ClientOrderId, ExecError, OrderAck, OrderId, OrderType, Side,
};
use parallax::types::position::Position;
use parallax::types::time::Timestamp;
use parallax::types::venue::{FeeModel, VenueId};

#[allow(dead_code)]
fn c() -> Arithmetic {
    Arithmetic::new(
        |op: Op, a: u64, b: u64| -> u64 {
            let x = f64::from_bits(a);
            let y = f64::from_bits(b);
            match op {
                Op::Sum => (x + y).to_bits(),
                Op::Difference => (x - y).to_bits(),
                Op::Product => (x * y).to_bits(),
                Op::Quotient => (x / y).to_bits(),
                Op::SquareRoot => x.sqrt().to_bits(),
                Op::Exponential => x.exp().to_bits(),
                Op::Logarithm => x.ln().to_bits(),
                Op::HyperbolicTangent => x.tanh().to_bits(),
                Op::Power => x.powf(y).to_bits(),
                Op::IntegerPower => x.powi(b as i32).to_bits(),
                Op::Floor => x.floor().to_bits(),
                Op::Ceiling => x.ceil().to_bits(),
                Op::OfCount => (a as f64).to_bits(),
                Op::ToIndex => x as u64,
            }
        },
        |style: Style, x: Double| -> String {
            let v = f64::from_bits(x.bits);
            match style {
                Style::Shortest => format!("{v}"),
                Style::TwoPlaces => format!("{v:.2}"),
                Style::FourPlaces => format!("{v:.4}"),
            }
        },
    )
}

#[allow(dead_code)]
fn d(x: f64) -> Double {
    Double::from_bits(x.to_bits())
}

#[allow(dead_code)]
fn f(x: Double) -> f64 {
    f64::from_bits(x.bits)
}

const CONTRACT: &str = "wx.temp.chicago.gt_869.2026-08-12.nws";

fn id() -> CanonicalContractId {
    CanonicalContractId(CONTRACT.into())
}

fn quote(bid: f64, ask: f64, ts: i64) -> NormalizedTick {
    NormalizedTick {
        venue: VenueId::Polymarket,
        contract: id(),
        bid: d(bid),
        bid_size: d(50.0),
        ask: d(ask),
        ask_size: d(50.0),
        venue_ts: None,
        receive_ts: Timestamp::from_nanos(ts),
    }
}

fn forecast(ts: i64) -> ReplayEvent {
    ReplayEvent::Alpha(RawEvent {
        source: "hrrr".into(),
        kind: AlphaEventKind::Weather,
        publish_ts: None,
        receive_ts: Timestamp::from_nanos(ts),
        payload: Payload {
            weather: Some(WeatherPayload {
                contract: CONTRACT.into(),
                threshold_tenths: 869,
                direction: None,
                upper_tenths: None,
                ensemble_forecast_tenths: vec![920, 930, 915, 925, 918],
            }),
            ..Payload::unknown()
        },
    })
}

/// A backtest that has heard the forecast and been quoted a cheap ask, and what it wants next.
fn about_to_snipe() -> (Backtest, Action) {
    let mut backtest = Backtest::new(
        RiskLimits::default(),
        FeeModel::polymarket_default(),
        vec![Box::new(WeatherEnsembleSource::new("hrrr"))],
        vec![Box::new(LiquiditySnipingEngine::new(SnipingConfig::default()))],
    );
    backtest.register_contract(id(), ClusterKey("wx.temp.chicago".into()));
    assert!(matches!(backtest.on_event(&c(), forecast(1)), Action::Idle));
    let action = backtest.on_event(&c(), ReplayEvent::Tick(quote(0.50, 0.55, 1)));
    assert!(matches!(action, Action::AdvanceMarket(_)));
    let action = backtest.on_fills(&c(), Vec::new());
    (backtest, action)
}

fn ack(status: AckStatus) -> OrderAck {
    OrderAck {
        order_id: OrderId("o1".into()),
        venue: VenueId::Polymarket,
        status,
        ts: Timestamp::from_nanos(1),
    }
}

#[test]
fn an_accepted_order_is_reserved_before_it_is_sent() {
    let (backtest, action) = about_to_snipe();
    let Action::Submit(intent) = action else {
        panic!("expected an order");
    };
    assert_eq!(intent.order_type, OrderType::ImmediateOrCancel);
    let held = backtest.risk().inventory_for(&c(), &id());
    assert_eq!(held.get(VenueId::Polymarket).map(|x| f(*x)), Some(50.0));
    assert_eq!(backtest.book().tracked_contracts(), 1);
}

#[test]
fn what_an_immediate_order_leaves_unfilled_is_released() {
    let (mut backtest, _) = about_to_snipe();
    let part = AckStatus::PartiallyFilled {
        filled_qty: d(20.0),
        remaining_qty: d(30.0),
        price: d(0.55),
    };
    assert!(matches!(backtest.on_submission(&c(), Ok(ack(part))), Action::Idle));
    let held = backtest.risk().inventory_for(&c(), &id());
    assert_eq!(held.get(VenueId::Polymarket).map(|x| f(*x)), Some(20.0));
    // The order is over: a later word on it changes nothing.
    backtest.apply_ack(&c(), &ack(AckStatus::Filled { qty: d(30.0), price: d(0.55) }), true);
    assert_eq!(f(backtest.risk().position_qty(VenueId::Polymarket, &id())), 20.0);
    let report = backtest.finalize_report(&c());
    assert_eq!((report.fills, f(report.filled_volume)), (1, 20.0));
    // 0.0625 * 20 * 0.55 * 0.45
    assert!((f(report.fees_paid) - 0.309375).abs() < 1e-9);
    assert_eq!(report.open_positions.len(), 1);
}

#[test]
fn a_sale_counts_for_what_it_puts_at_risk() {
    let mut backtest = Backtest::new(
        RiskLimits::default(),
        FeeModel::default(),
        vec![Box::new(WeatherEnsembleSource::new("hrrr"))],
        vec![Box::new(LiquiditySnipingEngine::new(SnipingConfig::default()))],
    );
    let ReplayEvent::Alpha(mut cold) = forecast(1) else {
        panic!("expected a forecast");
    };
    cold.payload.weather.as_mut().unwrap().ensemble_forecast_tenths = vec![700; 5];
    backtest.on_event(&c(), ReplayEvent::Alpha(cold));
    backtest.on_event(&c(), ReplayEvent::Tick(quote(0.40, 0.45, 1)));
    let Action::Submit(intent) = backtest.on_fills(&c(), Vec::new()) else {
        panic!("expected an order");
    };
    assert_eq!(intent.side, Side::Sell);
    let part = AckStatus::PartiallyFilled {
        filled_qty: d(10.0),
        remaining_qty: d(40.0),
        price: d(0.2),
    };
    backtest.on_submission(&c(), Ok(ack(part)));
    let report = backtest.finalize_report(&c());
    assert_eq!((report.fills, f(report.filled_volume)), (1, 10.0));
    assert_eq!(f(report.gross_notional_traded), 8.0);
}

#[test]
fn a_failed_submission_gives_the_room_back() {
    let (mut backtest, _) = about_to_snipe();
    let gone = ExecError::Indeterminate { venue: VenueId::Polymarket };
    assert!(matches!(backtest.on_submission(&c(), Err(gone)), Action::Idle));
    assert_eq!(backtest.risk().inventory_for(&c(), &id()).get(VenueId::Polymarket), None);
    let report = backtest.finalize_report(&c());
    assert_eq!((report.orders_failed_submission, report.fills), (1, 0));
    assert_eq!(report.orders_proposed, 1);
}

#[test]
fn a_rejected_order_is_neither_a_fill_nor_exposure() {
    let (mut backtest, _) = about_to_snipe();
    let no = AckStatus::Rejected { reason: "no liquidity".into() };
    backtest.on_submission(&c(), Ok(ack(no)));
    assert_eq!(backtest.risk().inventory_for(&c(), &id()).get(VenueId::Polymarket), None);
    assert_eq!(backtest.finalize_report(&c()).fills, 0);
}

#[test]
fn every_proposal_is_accepted_or_counted_as_refused() {
    let mut limits = RiskLimits::default();
    limits.max_notional_per_order = d(1.0);
    let mut backtest = Backtest::new(
        limits,
        FeeModel::default(),
        vec![Box::new(WeatherEnsembleSource::new("hrrr"))],
        vec![Box::new(LiquiditySnipingEngine::new(SnipingConfig::default()))],
    );
    backtest.on_event(&c(), forecast(1));
    backtest.on_event(&c(), ReplayEvent::Tick(quote(0.50, 0.55, 1)));
    assert!(matches!(backtest.on_fills(&c(), Vec::new()), Action::Idle));
    let refused = backtest.take_refused();
    assert_eq!(refused.len(), 1);
    assert_eq!((refused[0].intent.side, f(refused[0].intent.price)), (Side::Buy, 0.55));
    // 50 contracts at 0.55, against a limit of 1.
    let RejectReason::NotionalPerOrderExceeded { limit, projected } = refused[0].reason else {
        panic!("expected the limit on one order");
    };
    assert_eq!(f(limit), 1.0);
    assert!((f(projected) - 27.5).abs() < 1e-9);
    assert!(backtest.take_refused().is_empty());
    let report = backtest.finalize_report(&c());
    assert_eq!((report.orders_proposed, report.orders_rejected_by_risk), (1, 1));
    assert_eq!(report.rejection_histogram[0].reason, "NotionalPerOrderExceeded");
    assert_eq!((report.ticks_processed, report.alpha_events_processed), (1, 1));
}

#[test]
fn labels_leave_out_the_numbers() {
    let a = RejectReason::FeedStale { age_ns: 1, max_ns: 2 };
    let b = RejectReason::FeedStale { age_ns: 3, max_ns: 4 };
    assert_eq!(reject_reason_label(&a), reject_reason_label(&b));
    assert_eq!(reject_reason_label(&RejectReason::NoMarketData), "NoMarketData");
}

#[test]
fn a_histogram_accounts_for_every_rejection() {
    let mut report = BacktestReport::default();
    for reason in ["A", "B", "A", "C", "A"] {
        report.record_rejection(reason);
    }
    let counts: Vec<(&str, u64)> = report
        .rejection_histogram
        .iter()
        .map(|r| (r.reason.as_str(), r.count))
        .collect();
    assert_eq!(counts, [("A", 3), ("B", 1), ("C", 1)]);
    assert_eq!(report.orders_rejected_by_risk, 5);
}

#[test]
fn a_drawdown_never_shrinks_and_a_lost_ack_hides_every_number() {
    let mut report = BacktestReport::default();
    let mut last = 0.0;
    for equity in [0.0, 5.0, -2.0, 10.0, 9.0] {
        report.record_equity(&c(), d(equity));
        assert!(f(report.max_drawdown) >= last);
        last = f(report.max_drawdown);
    }
    assert_eq!(last, 7.0);
    assert_eq!(
        report.headline(&c()),
        "0 fills, 0.0000 gross / 0.0000 net PnL (0.0000 fees), 7.0000 max drawdown"
    );
    report.bus_integrity_violated = true;
    assert!(report.headline(&c()).starts_with("INTEGRITY VIOLATED"));
}

#[test]
fn lines_are_trimmed_and_numbered_from_one() {
    let lines = replay_lines("\u{3000} # note\r\n\t{\"a\":1} \r\n\n  \n{\"b\":2}");
    let seen: Vec<(usize, &str)> = lines.iter().map(|l| (l.number, l.line.as_str())).collect();
    assert_eq!(seen, [(2, "{\"a\":1}"), (5, "{\"b\":2}")]);
    assert_eq!(line_error(5, "bad"), "line 5: bad");
    assert!(replay_lines("").is_empty());
}

#[test]
fn the_venues_positions_replace_what_was_believed() {
    let mut gate = RiskGate::new(RiskLimits::default());
    gate.record_fill(&c(), VenueId::Kalshi, &id(), d(9.0), d(0.5), d(0.0));
    let mut position = Position::flat(VenueId::Kalshi, id());
    position.qty = d(5.0);
    position.avg_price = d(0.6);
    let mut broken = position.clone();
    broken.avg_price = d(f64::NAN);
    let (mut steps, first) = Reconciliation::start(Vec::new());
    assert!(matches!(first, ReconcileRequest::FetchPositions));
    assert!(matches!(
        steps.on_positions(Ok(vec![position, broken])),
        ReconcileRequest::ListOpenOrders
    ));
    let report = steps.on_open_orders(&c(), &mut gate, Ok(Vec::new()));
    assert_eq!(report.positions_loaded, 1);
    assert!(report.gate_reconciled && gate.is_reconciled());
    assert_eq!(f(gate.position_qty(VenueId::Kalshi, &id())), 5.0);
}

#[test]
fn one_open_question_keeps_the_risk_gate_shut() {
    let ids = vec![ClientOrderId("a".into()), ClientOrderId("b".into())];
    let (mut steps, first) = Reconciliation::start(ids);
    assert!(matches!(first, ReconcileRequest::FindOrder(ref id) if id.0 == "a"));
    let second = steps.on_lookup(Err(ExecError::Connection {
        venue: VenueId::Kalshi,
        message: "reset".into(),
    }));
    assert!(matches!(second, ReconcileRequest::FindOrder(ref id) if id.0 == "b"));
    let ReconcileRequest::Done(report) = steps.on_lookup(Ok(None)) else {
        panic!("expected the end");
    };
    assert!(!report.gate_reconciled);
    assert_eq!(report.orders_resolved, 1);
    assert_eq!(report.orders_unresolved.len(), 1);
    match check_reconciliation(&report) {
        Some(Alert::ReconciliationMismatch { unresolved_orders, detail }) => {
            assert_eq!(unresolved_orders, 1);
            assert!(detail.starts_with("a: ") && detail.contains("reset"));
        }
        other => panic!("{other:?}"),
    }
}

#[test]
fn an_alert_without_open_questions_names_the_fetch() {
    let report = ReconciliationReport {
        positions_loaded: 0,
        open_orders: Vec::new(),
        orders_resolved: 0,
        orders_unresolved: Vec::new(),
        gate_reconciled: false,
    };
    assert_eq!(
        check_reconciliation(&report),
        Some(Alert::ReconciliationMismatch {
            unresolved_orders: 0,
            detail: "position or open-order fetch failed".into()
        })
    );
}

#[test]
fn stale_counts_are_added_up() {
    let count = |reason: &str, count: u64| RejectionCount { reason: reason.into(), count };
    let report = BacktestReport {
        rejection_histogram: vec![count("FeedStale", 4), count("Other", 9), count("FeedStale", 2)],
        ..Default::default()
    };
    assert_eq!(check_feed_staleness(&report), Some(Alert::FeedStaleness { count: 6 }));
}

#[test]
fn a_halt_needs_the_whole_streak() {
    let mut verifier = FeeVerifier::new(d(0.01), 2);
    let first = verifier.record(&c(), d(1.0), d(1.5));
    assert!(matches!(first, FeeCheckOutcome::Mismatch { consecutive: 1, .. }));
    assert_eq!(verifier.record(&c(), d(1.0), d(1.005)), FeeCheckOutcome::Match);
    assert!(matches!(
        verifier.record(&c(), d(1.0), d(0.5)),
        FeeCheckOutcome::Mismatch { consecutive: 1, .. }
    ));
    assert!(matches!(
        verifier.record(&c(), d(1.0), d(0.5)),
        FeeCheckOutcome::PersistentMismatch { consecutive: 2, .. }
    ));
}
