use parallax::book::ConsolidatedBook;
use parallax::double::{Arithmetic, Double, Op, Style};
use parallax::risk::gate::{RiskGate, RiskLimits};
use parallax::sim::reconcile::{ReconcileRequest, Reconciliation, ReconciliationReport};
use parallax::types::contract::CanonicalContractId;
use parallax::types::orders::{
    ClientOrderId, EngineId, ExecError, OrderAck, OrderId, OrderIntent, OrderType, Outcome, Side,
};
use parallax::types::position::Position;
use parallax::types::time::Timestamp;
use parallax::types::venue::VenueId;

#[allow(dead_code)]
fn c() -> Arithmetic {
    Arithmetic::new(
        |op: Op, a: u64, b: u64| -> u64 {
            let x = f64::from_bits(a);
            let y = f64::from_bits(b);
            match op {
                Op::Sum => (x + y).to_bits(),
                Op::Difference => (x - y).to_bits(),
                Op::Product => (x * y).to_bits(),
                Op::Quotient => (x / y).to_bits(),
                Op::SquareRoot => x.sqrt().to_bits(),
                Op::Exponential => x.exp().to_bits(),
                Op::Logarithm => x.ln().to_bits(),
                Op::HyperbolicTangent => x.tanh().to_bits(),
                Op::Power => x.powf(y).to_bits(),
                Op::IntegerPower => x.powi(b as i32).to_bits(),
                Op::Floor => x.floor().to_bits(),
                Op::Ceiling => x.ceil().to_bits(),
                Op::OfCount => (a as f64).to_bits(),
                Op::ToIndex => x as u64,
            }
        },
        |style: Style, x: Double| -> String {
            let v = f64::from_bits(x.bits);
            match style {
                Style::Shortest => format!("{v}"),
                Style::TwoPlaces => format!("{v:.2}"),
                Style::FourPlaces => format!("{v:.4}"),
            }
        },
    )
}

#[allow(dead_code)]
fn d(x: f64) -> Double {
    Double::from_bits(x.to_bits())
}

#[allow(dead_code)]
fn f(x: Double) -> f64 {
    f64::from_bits(x.bits)
}

fn contract() -> CanonicalContractId {
    CanonicalContractId("wx.temp.chicago.gt_869.test.nws_official".into())
}

fn intent() -> OrderIntent {
    OrderIntent {
        venue: VenueId::Kalshi,
        contract: contract(),
        outcome: Outcome::Yes,
        side: Side::Buy,
        price: d(0.5),
        size: d(10.0),
        order_type: OrderType::Limit,
        engine: EngineId::MarketMaking,
        created_at: Timestamp::from_nanos(0),
    }
}

#[derive(Default)]
struct FakeVenue {
    lookup_results: Vec<Result<Option<OrderAck>, ExecError>>,
    positions: Option<Result<Vec<Position>, ExecError>>,
    open_orders: Option<Result<Vec<OrderId>, ExecError>>,
}

fn reconcile_startup(
    mut venue: FakeVenue,
    gate: &mut RiskGate,
    journaled: Vec<ClientOrderId>,
) -> ReconciliationReport {
    let (mut steps, mut request) = Reconciliation::start(journaled);
    loop {
        request = match request {
            ReconcileRequest::FindOrder(_) => steps.on_lookup(venue.lookup_results.remove(0)),
            ReconcileRequest::FetchPositions => {
                let answer = venue.positions.take().unwrap_or(Ok(Vec::new()));
                steps.on_positions(answer)
            }
            ReconcileRequest::ListOpenOrders => {
                let answer = venue.open_orders.take().unwrap_or(Ok(Vec::new()));
                return steps.on_open_orders(&c(), gate, answer);
            }
            ReconcileRequest::Done(report) => return report,
        };
    }
}

#[test]
fn an_empty_journal_reconciles_purely_from_the_position_fetch() {
    let venue = FakeVenue {
        positions: Some(Ok(vec![Position {
            venue: VenueId::Kalshi,
            contract: contract(),
            qty: d(5.0),
            avg_price: d(0.6),
            realized_pnl: d(0.0),
            fees_paid: d(0.0),
        }])),
        ..Default::default()
    };
    let mut gate = RiskGate::new(RiskLimits::default());
    assert!(!gate.is_reconciled());

    let report = reconcile_startup(venue, &mut gate, Vec::new());

    assert!(report.gate_reconciled);
    assert_eq!(report.positions_loaded, 1);
    assert!(gate.is_reconciled());
}

#[test]
fn a_journaled_order_the_venue_confirms_it_never_saw_still_reconciles() {
    let id = ClientOrderId::derive(&c(), &intent());
    let venue = FakeVenue {
        lookup_results: vec![Ok(None)],
        positions: Some(Ok(Vec::new())),
        ..Default::default()
    };
    let mut gate = RiskGate::new(RiskLimits::default());

    let report = reconcile_startup(venue, &mut gate, vec![id]);

    assert!(report.gate_reconciled);
    assert_eq!(report.orders_resolved, 1);
    assert!(report.orders_unresolved.is_empty());
}

#[test]
fn a_journaled_order_the_venue_cannot_confirm_blocks_reconciliation() {
    let id = ClientOrderId::derive(&c(), &intent());
    let venue = FakeVenue {
        lookup_results: vec![Err(ExecError::Connection {
            venue: VenueId::Kalshi,
            message: "timed out".into(),
        })],
        positions: Some(Ok(Vec::new())),
        ..Default::default()
    };
    let mut gate = RiskGate::new(RiskLimits::default());

    let report = reconcile_startup(venue, &mut gate, vec![id]);

    assert!(!report.gate_reconciled);
    assert_eq!(report.orders_unresolved.len(), 1);
    assert!(!gate.is_reconciled());
    let book = ConsolidatedBook::new();
    let check_intent = intent();
    assert!(gate
        .check(&c(), &check_intent, &book, Timestamp::from_nanos(0))
        .is_err());
}

#[test]
fn a_failed_position_fetch_also_blocks_reconciliation() {
    let venue = FakeVenue {
        positions: Some(Err(ExecError::Connection {
            venue: VenueId::Kalshi,
            message: "500".into(),
        })),
        ..Default::default()
    };
    let mut gate = RiskGate::new(RiskLimits::default());

    let report = reconcile_startup(venue, &mut gate, Vec::new());

    assert!(!report.gate_reconciled);
    assert!(!gate.is_reconciled());
}

#[test]
fn a_failed_open_order_listing_also_blocks_reconciliation() {
    let venue = FakeVenue {
        positions: Some(Ok(Vec::new())),
        open_orders: Some(Err(ExecError::Connection {
            venue: VenueId::Kalshi,
            message: "500".into(),
        })),
        ..Default::default()
    };
    let mut gate = RiskGate::new(RiskLimits::default());

    let report = reconcile_startup(venue, &mut gate, Vec::new());

    assert!(!report.gate_reconciled);
    assert!(!gate.is_reconciled());
}

#[test]
fn a_successful_reconciliation_surfaces_the_venues_open_orders() {
    let venue = FakeVenue {
        positions: Some(Ok(Vec::new())),
        open_orders: Some(Ok(vec![OrderId("resting-1".into())])),
        ..Default::default()
    };
    let mut gate = RiskGate::new(RiskLimits::default());

    let report = reconcile_startup(venue, &mut gate, Vec::new());

    assert!(report.gate_reconciled);
    assert_eq!(report.open_orders, vec![OrderId("resting-1".into())]);
}
