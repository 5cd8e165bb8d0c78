use parallax::double::{Arithmetic, Double, Op, Style};
use parallax::book::ConsolidatedBook;
use parallax::risk::gate::{RejectReason, RiskGate, RiskLimits};
use parallax::risk::kill_switch::{KillSwitch, TripScope};
use parallax::risk::ledger::{position_risk_notional, Ledger, Reservation};
use parallax::types::contract::CanonicalContractId;
use parallax::types::market::NormalizedTick;
use parallax::types::orders::{AckStatus, EngineId, OrderIntent, OrderType, Outcome, Side};
use parallax::types::position::Position;
use parallax::types::time::Timestamp;
use parallax::types::venue::VenueId;

#[allow(dead_code)]
fn c() -> Arithmetic {
    Arithmetic::new(
        |op: Op, a: u64, b: u64| -> u64 {
            let x = f64::from_bits(a);
            let y = f64::from_bits(b);
            match op {
                Op::Sum => (x + y).to_bits(),
                Op::Difference => (x - y).to_bits(),
                Op::Product => (x * y).to_bits(),
                Op::Quotient => (x / y).to_bits(),
                Op::SquareRoot => x.sqrt().to_bits(),
                Op::Exponential => x.exp().to_bits(),
                Op::Logarithm => x.ln().to_bits(),
                Op::HyperbolicTangent => x.tanh().to_bits(),
                Op::Power => x.powf(y).to_bits(),
                Op::IntegerPower => x.powi(b as i32).to_bits(),
                Op::Floor => x.floor().to_bits(),
                Op::Ceiling => x.ceil().to_bits(),
                Op::OfCount => (a as f64).to_bits(),
                Op::ToIndex => x as u64,
            }
        },
        |style: Style, x: Double| -> String {
            let v = f64::from_bits(x.bits);
            match style {
                Style::Shortest => format!("{v}"),
                Style::TwoPlaces => format!("{v:.2}"),
                Style::FourPlaces => format!("{v:.4}"),
            }
        },
    )
}

#[allow(dead_code)]
fn d(x: f64) -> Double {
    Double::from_bits(x.to_bits())
}

#[allow(dead_code)]
fn f(x: Double) -> f64 {
    f64::from_bits(x.bits)
}

fn id(name: &str) -> CanonicalContractId {
    CanonicalContractId(name.into())
}

fn order(venue: VenueId, contract: &str, side: Side, price: f64, size: f64) -> OrderIntent {
    OrderIntent {
        venue,
        contract: id(contract),
        outcome: Outcome::Yes,
        side,
        price: d(price),
        size: d(size),
        order_type: OrderType::Limit,
        engine: EngineId::StatArb,
        created_at: Timestamp::from_nanos(0),
    }
}

fn quoted(contracts: &[&str]) -> ConsolidatedBook {
    let mut book = ConsolidatedBook::new();
    for contract in contracts {
        for venue in [VenueId::Kalshi, VenueId::Polymarket] {
            book.update(
                &c(),
                NormalizedTick {
                    venue,
                    contract: id(contract),
                    bid: d(0.48),
                    bid_size: d(100.0),
                    ask: d(0.52),
                    ask_size: d(100.0),
                    venue_ts: None,
                    receive_ts: Timestamp::from_nanos(0),
                },
            );
        }
    }
    book
}

fn check(gate: &RiskGate, intent: &OrderIntent, book: &ConsolidatedBook) -> Result<(), RejectReason> {
    gate.check(&c(), intent, book, Timestamp::from_nanos(0))
}

fn wide() -> RiskLimits {
    RiskLimits {
        max_abs_qty_per_contract: d(1e6),
        max_abs_qty_per_cluster: d(1e6),
        max_gross_qty_per_venue: d(1e6),
        max_gross_qty_total: d(1e6),
        max_notional_per_order: d(1e6),
        max_notional_per_venue: d(1e6),
        max_notional_total: d(1e6),
        ..RiskLimits::default()
    }
}

#[test]
fn each_exposure_has_its_own_refusal() {
    let book = quoted(&["a", "b"]);
    let intent = order(VenueId::Kalshi, "a", Side::Buy, 0.5, 20.0);
    let mut limits = wide();
    limits.max_gross_qty_per_venue = d(15.0);
    assert_eq!(
        check(&RiskGate::new_presumed_flat(limits), &intent, &book),
        Err(RejectReason::VenueLimitExceeded { limit: d(15.0), projected: d(20.0) })
    );
    let mut limits = wide();
    limits.max_gross_qty_total = d(15.0);
    assert_eq!(
        check(&RiskGate::new_presumed_flat(limits), &intent, &book),
        Err(RejectReason::GrossLimitExceeded { limit: d(15.0), projected: d(20.0) })
    );
    let mut limits = wide();
    limits.max_notional_per_venue = d(9.0);
    assert_eq!(
        check(&RiskGate::new_presumed_flat(limits), &intent, &book),
        Err(RejectReason::NotionalVenueExceeded { limit: d(9.0), projected: d(10.0) })
    );
    let mut limits = wide();
    limits.max_notional_total = d(9.0);
    assert_eq!(
        check(&RiskGate::new_presumed_flat(limits), &intent, &book),
        Err(RejectReason::NotionalTotalExceeded { limit: d(9.0), projected: d(10.0) })
    );
    assert_eq!(check(&RiskGate::new_presumed_flat(wide()), &intent, &book), Ok(()));
}

#[test]
fn an_order_that_is_not_valid_is_refused_before_a_halt() {
    let book = quoted(&["a"]);
    let mut gate = RiskGate::new_presumed_flat(wide());
    gate.trip_global("halted");
    let broken = order(VenueId::Kalshi, "a", Side::Buy, f64::NAN, 20.0);
    assert!(matches!(check(&gate, &broken, &book), Err(RejectReason::Invalid(_))));
    let sound = order(VenueId::Kalshi, "a", Side::Buy, 0.5, 20.0);
    assert_eq!(
        check(&gate, &sound, &book),
        Err(RejectReason::KillSwitch { reason: "halted".into() })
    );
}

#[test]
fn the_largest_skew_does_not_overflow() {
    let mut book = ConsolidatedBook::new();
    book.update(
        &c(),
        NormalizedTick {
            venue: VenueId::Kalshi,
            contract: id("a"),
            bid: d(0.4),
            bid_size: d(1.0),
            ask: d(0.6),
            ask_size: d(1.0),
            venue_ts: None,
            receive_ts: Timestamp::from_nanos(i64::MAX),
        },
    );
    let gate = RiskGate::new_presumed_flat(wide());
    let intent = order(VenueId::Kalshi, "a", Side::Buy, 0.5, 1.0);
    assert_eq!(
        gate.check(&c(), &intent, &book, Timestamp::from_nanos(i64::MIN)),
        Err(RejectReason::ClockSkew { skew_ns: i64::MAX })
    );
}

#[test]
fn a_contract_halt_stops_one_contract_everywhere() {
    let mut switch = KillSwitch::new();
    switch.trip_contract(id("a"), "odd");
    assert_eq!(switch.reason_if_tripped(VenueId::Paper, &id("a")), Some("odd".to_string()));
    assert_eq!(switch.reason_if_tripped(VenueId::Paper, &id("b")), None);
    switch.trip_venue(VenueId::Paper, "down");
    assert_eq!(switch.reason_if_tripped(VenueId::Paper, &id("a")), Some("down".to_string()));
    switch.trip_global("all");
    let scopes: Vec<TripScope> = switch.active_trips().into_iter().map(|t| t.scope).collect();
    assert_eq!(
        scopes,
        [
            TripScope::Global,
            TripScope::Venue(VenueId::Paper),
            TripScope::Contract(id("a"))
        ]
    );
    switch.reset_all();
    assert!(switch.active_trips().is_empty() && !switch.is_global_tripped());
}

#[test]
fn a_reservation_is_seen_at_once_and_moves_no_other_slot() {
    let mut gate = RiskGate::new_presumed_flat(wide());
    let intent = order(VenueId::Kalshi, "a", Side::Sell, 0.5, 20.0);
    gate.reserve(&c(), &intent);
    let inventory = gate.inventory_for(&c(), &id("a"));
    assert_eq!(inventory.get(VenueId::Kalshi).map(|x| f(*x)), Some(-20.0));
    assert_eq!(inventory.get(VenueId::Polymarket), None);
    assert_eq!(gate.inventory_for(&c(), &id("b")).get(VenueId::Kalshi), None);
    assert_eq!(f(gate.position_qty(VenueId::Kalshi, &id("a"))), 0.0);
    gate.reduce_reservation(&c(), &intent, d(5.0));
    let inventory = gate.inventory_for(&c(), &id("a"));
    assert_eq!(inventory.get(VenueId::Kalshi).map(|x| f(*x)), Some(-15.0));
    gate.release(&c(), &intent);
    assert_eq!(gate.inventory_for(&c(), &id("a")).get(VenueId::Kalshi), None);
}

#[test]
fn a_release_takes_off_only_its_own_order() {
    let mut gate = RiskGate::new_presumed_flat(wide());
    let first = order(VenueId::Kalshi, "a", Side::Buy, 0.61, 40.0);
    let second = order(VenueId::Kalshi, "a", Side::Buy, 0.61, 30.0);
    let held = |gate: &RiskGate| gate.inventory_for(&c(), &id("a")).get(VenueId::Kalshi).map(|x| f(*x));
    gate.reserve(&c(), &first);
    gate.reserve(&c(), &second);
    assert_eq!(held(&gate), Some(70.0));
    gate.reduce_reservation(&c(), &first, d(15.0));
    assert_eq!(held(&gate), Some(55.0));
    gate.release(&c(), &first);
    assert_eq!(held(&gate), Some(30.0));
    gate.release(&c(), &first);
    assert_eq!(held(&gate), Some(30.0));
    gate.reduce_reservation(&c(), &second, d(500.0));
    assert_eq!(held(&gate), None);
}

#[test]
fn a_release_leaves_the_other_side_alone() {
    let buy = order(VenueId::Kalshi, "a", Side::Buy, 0.4, 10.0);
    let sell = order(VenueId::Kalshi, "a", Side::Sell, 0.6, 7.0);
    let live = Reservation::empty().add_order(&c(), &buy).add_order(&c(), &sell);
    let after = live.take_off(&c(), &buy, d(f64::INFINITY));
    assert_eq!((f(after.buy_qty), f(after.buy_notional)), (0.0, 0.0));
    assert_eq!((after.sell_qty, after.sell_notional), (live.sell_qty, live.sell_notional));
    assert!(!after.is_empty());
    assert!(after.take_off(&c(), &sell, d(f64::INFINITY)).is_empty());
}

#[test]
fn slots_stand_in_order_and_are_replaced_one_at_a_time() {
    let mut ledger = Ledger::new();
    for (venue, name) in [
        (VenueId::Paper, "a"),
        (VenueId::Polymarket, "b"),
        (VenueId::Polymarket, "a"),
    ] {
        let mut slot = ledger.slot(venue, &id(name));
        slot.working = Some(Reservation::empty());
        ledger.put(slot);
    }
    let seen: Vec<(VenueId, String)> =
        ledger.slots().iter().map(|s| (s.venue, s.contract.0.clone())).collect();
    assert_eq!(
        seen,
        [
            (VenueId::Polymarket, "a".to_string()),
            (VenueId::Polymarket, "b".to_string()),
            (VenueId::Paper, "a".to_string())
        ]
    );
    let mut slot = ledger.slot(VenueId::Polymarket, &id("b"));
    slot.position = Some(Position::flat(VenueId::Polymarket, id("b")));
    ledger.put(slot);
    assert_eq!(ledger.slots().len(), 3);
    assert!(ledger.slots()[1].position.is_some() && ledger.slots()[0].position.is_none());
}

#[test]
fn a_shrinking_order_passes_a_limit_that_is_already_broken() {
    let book = quoted(&["a"]);
    let mut limits = wide();
    limits.max_abs_qty_per_contract = d(50.0);
    limits.max_abs_qty_per_cluster = d(50.0);
    let mut gate = RiskGate::new_presumed_flat(limits);
    gate.record_fill(&c(), VenueId::Kalshi, &id("a"), d(80.0), d(0.5), d(0.0));
    assert_eq!(check(&gate, &order(VenueId::Kalshi, "a", Side::Sell, 0.5, 30.0), &book), Ok(()));
    assert!(check(&gate, &order(VenueId::Kalshi, "a", Side::Buy, 0.5, 1.0), &book).is_err());
}

#[test]
fn a_refused_order_of_a_batch_takes_no_room() {
    let book = quoted(&["a"]);
    let mut limits = wide();
    limits.max_abs_qty_per_contract = d(50.0);
    let gate = RiskGate::new_presumed_flat(limits);
    let batch = [
        order(VenueId::Kalshi, "a", Side::Buy, 0.5, 40.0),
        order(VenueId::Kalshi, "a", Side::Buy, 0.5, 20.0),
        order(VenueId::Kalshi, "a", Side::Buy, 0.5, 10.0),
    ];
    let verdicts = gate.check_batch(&c(), &batch, &book, Timestamp::from_nanos(0));
    assert!(verdicts[0].is_ok() && verdicts[1].is_err() && verdicts[2].is_ok());
    assert_eq!(gate.positions_snapshot().len(), 0);
}

#[test]
fn positions_are_loaded_only_where_they_are_sound() {
    let mut gate = RiskGate::new(wide());
    let mut position = Position::flat(VenueId::Kalshi, id("a"));
    position.qty = d(f64::NAN);
    assert!(gate.set_position(&c(), position).is_err());
    assert_eq!(gate.positions_snapshot().len(), 0);
    let mut position = Position::flat(VenueId::Kalshi, id("a"));
    position.qty = d(-4.0);
    position.avg_price = d(0.25);
    assert!(gate.set_position(&c(), position.clone()).is_ok());
    assert_eq!(f(gate.position_qty(VenueId::Kalshi, &id("a"))), -4.0);
    // A short of 4 at 0.25 can lose 0.75 on each.
    assert_eq!(f(position_risk_notional(&c(), &position)), 3.0);
    assert!(!gate.is_reconciled());
}

#[test]
fn a_slow_bleed_trips_on_the_fall_from_the_peak() {
    let mut gate = RiskGate::new_presumed_flat(RiskLimits::default());
    gate.mark_to_market(&c(), d(0.0));
    gate.mark_to_market(&c(), d(100.0));
    assert!(!gate.kill_switch().is_global_tripped());
    gate.mark_to_market(&c(), d(-51.0));
    let trips = gate.kill_switch().active_trips();
    assert_eq!(
        trips[0].reason,
        "drawdown 151.0000 from peak exceeds max_drawdown_from_peak 150.0000"
    );
}

#[test]
fn only_a_resting_order_stays_working() {
    let part = AckStatus::PartiallyFilled {
        filled_qty: d(1.0),
        remaining_qty: d(2.0),
        price: d(0.5),
    };
    assert!(RiskGate::leaves_order_working(OrderType::Limit, &part));
    assert!(!RiskGate::leaves_order_working(OrderType::ImmediateOrCancel, &part));
    assert!(RiskGate::leaves_order_working(OrderType::ImmediateOrCancel, &AckStatus::Accepted));
    assert!(!RiskGate::leaves_order_working(OrderType::Limit, &AckStatus::Canceled));
}

#[test]
fn a_batch_gives_what_checking_one_by_one_gives() {
    let book = quoted(&["a", "b"]);
    let limits = RiskLimits { max_abs_qty_per_contract: d(50.0), ..wide() };
    let gate = RiskGate::new_presumed_flat(limits);
    let batch = [
        order(VenueId::Kalshi, "a", Side::Buy, 0.5, 30.0),
        order(VenueId::Kalshi, "a", Side::Buy, 0.5, 40.0),
        order(VenueId::Kalshi, "a", Side::Sell, 0.5, 45.0),
        order(VenueId::Polymarket, "b", Side::Buy, 0.5, 50.0),
        order(VenueId::Kalshi, "a", Side::Buy, 0.5, 20.0),
        order(VenueId::Kalshi, "a", Side::Buy, 0.5, 1.0),
    ];
    let now = Timestamp::from_nanos(0);
    let together = gate.check_batch(&c(), &batch, &book, now);
    let mut told = RiskGate::new_presumed_flat(limits);
    let mut apart = Vec::new();
    for intent in &batch {
        let said = told.check(&c(), intent, &book, now);
        if said.is_ok() {
            told.reserve(&c(), intent);
        }
        apart.push(said);
    }
    assert_eq!(together, apart);
    let ok: Vec<bool> = together.iter().map(|r| r.is_ok()).collect();
    assert_eq!(ok, [true, false, true, true, true, false]);
    assert_eq!(gate.check_batch(&c(), &batch, &book, now), together);
}

#[test]
fn a_contract_that_is_halted_twice_is_listed_once() {
    let mut switch = KillSwitch::new();
    switch.trip_contract(id("a"), "first");
    switch.trip_contract(id("b"), "other");
    switch.trip_contract(id("a"), "second");
    switch.trip_venue(VenueId::Kalshi, "down");
    switch.trip_venue(VenueId::Kalshi, "still down");
    let listed: Vec<(TripScope, String)> =
        switch.active_trips().into_iter().map(|t| (t.scope, t.reason)).collect();
    assert_eq!(
        listed,
        [
            (TripScope::Venue(VenueId::Kalshi), "still down".to_string()),
            (TripScope::Contract(id("a")), "second".to_string()),
            (TripScope::Contract(id("b")), "other".to_string())
        ]
    );
}
