use parallax::book::ConsolidatedBook;
use parallax::double::{Arithmetic, Double, Op, Style};
use parallax::risk::gate::{RejectReason, RiskGate, RiskLimits};
use parallax::types::contract::{CanonicalContractId, CanonicalContractSpec, Direction, EventClass};
use parallax::types::market::NormalizedTick;
use parallax::types::orders::{EngineId, OrderIntent, OrderType, Outcome, Side};
use parallax::types::time::Timestamp;
use parallax::types::venue::VenueId;

#[allow(dead_code)]
fn c() -> Arithmetic {
    Arithmetic::new(
        |op: Op, a: u64, b: u64| -> u64 {
            let x = f64::from_bits(a);
            let y = f64::from_bits(b);
            match op {
                Op::Sum => (x + y).to_bits(),
                Op::Difference => (x - y).to_bits(),
                Op::Product => (x * y).to_bits(),
                Op::Quotient => (x / y).to_bits(),
                Op::SquareRoot => x.sqrt().to_bits(),
                Op::Exponential => x.exp().to_bits(),
                Op::Logarithm => x.ln().to_bits(),
                Op::HyperbolicTangent => x.tanh().to_bits(),
                Op::Power => x.powf(y).to_bits(),
                Op::IntegerPower => x.powi(b as i32).to_bits(),
                Op::Floor => x.floor().to_bits(),
                Op::Ceiling => x.ceil().to_bits(),
                Op::OfCount => (a as f64).to_bits(),
                Op::ToIndex => x as u64,
            }
        },
        |style: Style, x: Double| -> String {
            let v = f64::from_bits(x.bits);
            match style {
                Style::Shortest => format!("{v}"),
                Style::TwoPlaces => format!("{v:.2}"),
                Style::FourPlaces => format!("{v:.4}"),
            }
        },
    )
}

#[allow(dead_code)]
fn d(x: f64) -> Double {
    Double::from_bits(x.to_bits())
}

#[allow(dead_code)]
fn f(x: Double) -> f64 {
    f64::from_bits(x.bits)
}

fn spec(threshold: i64) -> CanonicalContractSpec {
    CanonicalContractSpec {
        event_class: EventClass("wx.temp".into()),
        location: "chicago".into(),
        threshold,
        direction: Direction::GreaterThan,
        resolution_window: "2026-08-12".into(),
        resolution_source: "nws_official".into(),
    }
}

fn book_with_tick(
    venue: VenueId,
    contract: CanonicalContractId,
    ts: i64,
) -> ConsolidatedBook {
    let mut book = ConsolidatedBook::new();
    book.update(&c(), NormalizedTick {
        venue,
        contract,
        bid: d(0.60),
        bid_size: d(100.0),
        ask: d(0.63),
        ask_size: d(100.0),
        venue_ts: None,
        receive_ts: Timestamp::from_nanos(ts),
    });
    book
}

fn intent(
    venue: VenueId,
    contract: CanonicalContractId,
    side: Side,
    size: f64,
) -> OrderIntent {
    OrderIntent {
        venue,
        contract,
        outcome: Outcome::Yes,
        side,
        price: d(0.61),
        size: d(size),
        order_type: OrderType::Limit,
        engine: EngineId::MarketMaking,
        created_at: Timestamp::from_nanos(0),
    }
}

#[test]
fn order_within_limits_is_accepted() {
    let contract = spec(869).to_id();
    let gate = RiskGate::new_presumed_flat(RiskLimits::default());
    let book = book_with_tick(VenueId::Kalshi, contract.clone(), 0);
    let ord = intent(VenueId::Kalshi, contract, Side::Buy, 10.0);
    assert!(gate.check(&c(), &ord, &book, Timestamp::from_nanos(0)).is_ok());
}

#[test]
fn an_unreconciled_gate_refuses_every_order() {
    let contract = spec(869).to_id();
    let gate = RiskGate::new(RiskLimits::default());
    let book = book_with_tick(VenueId::Kalshi, contract.clone(), 0);
    let ord = intent(VenueId::Kalshi, contract, Side::Buy, 10.0);
    assert_eq!(
        gate.check(&c(), &ord, &book, Timestamp::from_nanos(0)),
        Err(RejectReason::NotReconciled)
    );
}

#[test]
fn mark_reconciled_lets_a_fresh_gate_start_trading() {
    let contract = spec(869).to_id();
    let mut gate = RiskGate::new(RiskLimits::default());
    gate.mark_reconciled();
    let book = book_with_tick(VenueId::Kalshi, contract.clone(), 0);
    let ord = intent(VenueId::Kalshi, contract, Side::Buy, 10.0);
    assert!(gate.check(&c(), &ord, &book, Timestamp::from_nanos(0)).is_ok());
}

#[test]
fn order_without_market_data_is_rejected() {
    let contract = spec(869).to_id();
    let gate = RiskGate::new_presumed_flat(RiskLimits::default());
    let book = ConsolidatedBook::new();
    let ord = intent(VenueId::Kalshi, contract, Side::Buy, 10.0);
    assert_eq!(
        gate.check(&c(), &ord, &book, Timestamp::from_nanos(0)),
        Err(RejectReason::NoMarketData)
    );
}

#[test]
fn stale_feed_is_rejected() {
    let contract = spec(869).to_id();
    let gate = RiskGate::new_presumed_flat(RiskLimits::default());
    let book = book_with_tick(VenueId::Kalshi, contract.clone(), 0);
    let ord = intent(VenueId::Kalshi, contract, Side::Buy, 10.0);
    let now = Timestamp::from_nanos(10_000_000_000);
    match gate.check(&c(), &ord, &book, now) {
        Err(RejectReason::FeedStale { .. }) => {}
        other => panic!("expected FeedStale, got {other:?}"),
    }
}

#[test]
fn a_feed_timestamp_from_the_future_is_clock_skew_not_freshness() {
    let contract = spec(869).to_id();
    let gate = RiskGate::new_presumed_flat(RiskLimits::default());
    let book = book_with_tick(VenueId::Kalshi, contract.clone(), 10_000_000_000);
    let ord = intent(VenueId::Kalshi, contract, Side::Buy, 10.0);
    match gate.check(&c(), &ord, &book, Timestamp::from_nanos(0)) {
        Err(RejectReason::ClockSkew { skew_ns }) => assert_eq!(skew_ns, 10_000_000_000),
        other => panic!("expected ClockSkew, got {other:?}"),
    }
}

#[test]
fn per_contract_limit_is_enforced() {
    let contract = spec(869).to_id();
    let limits = RiskLimits {
        max_abs_qty_per_contract: d(50.0),
        ..RiskLimits::default()
    };
    let gate = RiskGate::new_presumed_flat(limits);
    let book = book_with_tick(VenueId::Kalshi, contract.clone(), 0);
    let ord = intent(VenueId::Kalshi, contract, Side::Buy, 51.0);
    match gate.check(&c(), &ord, &book, Timestamp::from_nanos(0)) {
        Err(RejectReason::ContractLimitExceeded { .. }) => {}
        other => panic!("expected ContractLimitExceeded, got {other:?}"),
    }
}

#[test]
fn a_two_sided_ladder_is_charged_the_worst_case_not_the_signed_sum() {
    let contract = spec(869).to_id();
    let limits = RiskLimits {
        max_abs_qty_per_contract: d(45.0),
        ..RiskLimits::default()
    };
    let mut gate = RiskGate::new_presumed_flat(limits);
    let book = book_with_tick(VenueId::Kalshi, contract.clone(), 0);

    let buy = intent(VenueId::Kalshi, contract.clone(), Side::Buy, 40.0);
    assert!(gate.check(&c(), &buy, &book, Timestamp::from_nanos(0)).is_ok());
    gate.reserve(&c(), &buy);

    let sell = intent(VenueId::Kalshi, contract.clone(), Side::Sell, 40.0);
    assert!(gate.check(&c(), &sell, &book, Timestamp::from_nanos(0)).is_ok());
    gate.reserve(&c(), &sell);

    let extra_buy = intent(VenueId::Kalshi, contract, Side::Buy, 10.0);
    match gate.check(&c(), &extra_buy, &book, Timestamp::from_nanos(0)) {
        Err(RejectReason::ContractLimitExceeded { projected, .. }) => {
            assert_eq!(
                f(projected), 50.0,
                "the two-sided ladder's worst case (40) plus 10 more must be 50, not 10"
            )
        }
        other => panic!("expected ContractLimitExceeded, got {other:?}"),
    }
}

#[test]
fn working_orders_are_visible_to_the_gate_before_any_fill() {
    let contract = spec(869).to_id();
    let limits = RiskLimits {
        max_abs_qty_per_contract: d(100.0),
        ..RiskLimits::default()
    };
    let mut gate = RiskGate::new_presumed_flat(limits);
    let book = book_with_tick(VenueId::Kalshi, contract.clone(), 0);

    let first = intent(VenueId::Kalshi, contract.clone(), Side::Buy, 60.0);
    assert!(gate.check(&c(), &first, &book, Timestamp::from_nanos(0)).is_ok());
    gate.reserve(&c(), &first);

    let second = intent(VenueId::Kalshi, contract, Side::Buy, 60.0);
    match gate.check(&c(), &second, &book, Timestamp::from_nanos(0)) {
        Err(RejectReason::ContractLimitExceeded { .. }) => {}
        other => panic!("second order must see the first's reservation, got {other:?}"),
    }
}

#[test]
fn releasing_a_reservation_frees_its_budget_back_up() {
    let contract = spec(869).to_id();
    let limits = RiskLimits {
        max_abs_qty_per_contract: d(60.0),
        ..RiskLimits::default()
    };
    let mut gate = RiskGate::new_presumed_flat(limits);
    let book = book_with_tick(VenueId::Kalshi, contract.clone(), 0);

    let first = intent(VenueId::Kalshi, contract.clone(), Side::Buy, 60.0);
    gate.reserve(&c(), &first);
    let second = intent(VenueId::Kalshi, contract.clone(), Side::Buy, 60.0);
    assert!(gate
        .check(&c(), &second, &book, Timestamp::from_nanos(0))
        .is_err());

    gate.release(&c(), &first);
    assert!(gate.check(&c(), &second, &book, Timestamp::from_nanos(0)).is_ok());
}

#[test]
fn an_order_that_reduces_an_already_over_limit_position_is_still_allowed() {
    let contract = spec(869).to_id();
    let limits = RiskLimits {
        max_abs_qty_per_contract: d(50.0),
        ..RiskLimits::default()
    };
    let mut gate = RiskGate::new_presumed_flat(limits);
    gate.record_fill(&c(), VenueId::Kalshi, &contract, d(80.0), d(0.5), d(0.0));
    let book = book_with_tick(VenueId::Kalshi, contract.clone(), 0);

    let reduce = intent(VenueId::Kalshi, contract, Side::Sell, 10.0);
    assert!(
        gate.check(&c(), &reduce, &book, Timestamp::from_nanos(0)).is_ok(),
        "an order that reduces exposure must not be trapped by the limit that exposure already breached"
    );
}

#[test]
fn an_order_that_would_increase_an_already_over_limit_position_is_still_rejected() {
    let contract = spec(869).to_id();
    let limits = RiskLimits {
        max_abs_qty_per_contract: d(50.0),
        ..RiskLimits::default()
    };
    let mut gate = RiskGate::new_presumed_flat(limits);
    gate.record_fill(&c(), VenueId::Kalshi, &contract, d(80.0), d(0.5), d(0.0));
    let book = book_with_tick(VenueId::Kalshi, contract.clone(), 0);

    let increase = intent(VenueId::Kalshi, contract, Side::Buy, 10.0);
    match gate.check(&c(), &increase, &book, Timestamp::from_nanos(0)) {
        Err(RejectReason::ContractLimitExceeded { .. }) => {}
        other => panic!("expected ContractLimitExceeded, got {other:?}"),
    }
}

#[test]
fn correlated_cluster_is_netted_across_contracts() {
    let contract_a = spec(869).to_id();
    let contract_b = spec(900).to_id();
    let cluster = spec(869).cluster_key();
    assert_eq!(cluster, spec(900).cluster_key());

    let limits = RiskLimits {
        max_abs_qty_per_contract: d(1_000.0),
        max_abs_qty_per_cluster: d(100.0),
        ..RiskLimits::default()
    };
    let mut gate = RiskGate::new_presumed_flat(limits);
    gate.register_contract(contract_a.clone(), cluster.clone());
    gate.register_contract(contract_b.clone(), cluster.clone());

    let mut book = ConsolidatedBook::new();
    for id in [&contract_a, &contract_b] {
        book.update(&c(), NormalizedTick {
            venue: VenueId::Kalshi,
            contract: id.clone(),
            bid: d(0.6),
            bid_size: d(100.0),
            ask: d(0.63),
            ask_size: d(100.0),
            venue_ts: None,
            receive_ts: Timestamp::from_nanos(0),
        });
    }
    gate.record_fill(&c(), VenueId::Kalshi, &contract_a, d(70.0), d(0.61), d(0.0));
    let ord_b = intent(VenueId::Kalshi, contract_b, Side::Buy, 40.0);
    match gate.check(&c(), &ord_b, &book, Timestamp::from_nanos(0)) {
        Err(RejectReason::ClusterLimitExceeded { .. }) => {}
        other => panic!("expected ClusterLimitExceeded, got {other:?}"),
    }
}

#[test]
fn opposing_directions_in_one_cluster_net_against_each_other() {
    let mut gt = spec(869);
    gt.direction = Direction::GreaterThan;
    let mut lt = spec(869);
    lt.direction = Direction::LessThan;
    let cluster = gt.cluster_key();
    assert_eq!(cluster, lt.cluster_key());

    let limits = RiskLimits {
        max_abs_qty_per_contract: d(1_000.0),
        max_abs_qty_per_cluster: d(60.0),
        ..RiskLimits::default()
    };
    let mut gate = RiskGate::new_presumed_flat(limits);
    gate.register_contract(gt.to_id(), cluster.clone());
    gate.register_contract(lt.to_id(), cluster.clone());
    gate.record_fill(&c(), VenueId::Kalshi, &gt.to_id(), d(50.0), d(0.5), d(0.0));

    let mut book = ConsolidatedBook::new();
    for id in [gt.to_id(), lt.to_id()] {
        book.update(&c(), NormalizedTick {
            venue: VenueId::Kalshi,
            contract: id,
            bid: d(0.6),
            bid_size: d(100.0),
            ask: d(0.63),
            ask_size: d(100.0),
            venue_ts: None,
            receive_ts: Timestamp::from_nanos(0),
        });
    }
    let hedge = intent(VenueId::Kalshi, lt.to_id(), Side::Buy, 50.0);
    assert!(
        gate.check(&c(), &hedge, &book, Timestamp::from_nanos(0)).is_ok(),
        "opposing-direction exposure should net, not compound"
    );
}

#[test]
fn cluster_worst_case_is_the_range_of_the_sum_not_the_sum_of_worst_cases() {
    let a = spec(1);
    let mut b = spec(2);
    b.direction = Direction::GreaterThan;
    let cluster = a.cluster_key();
    let limits = RiskLimits {
        max_abs_qty_per_contract: d(10_000.0),
        max_abs_qty_per_cluster: d(800.0),
        ..RiskLimits::default()
    };
    let mut gate = RiskGate::new_presumed_flat(limits);
    gate.register_contract(a.to_id(), cluster.clone());
    gate.register_contract(b.to_id(), cluster.clone());
    gate.record_fill(&c(), VenueId::Kalshi, &b.to_id(), d(-750.0), d(0.5), d(0.0));

    let mut book = ConsolidatedBook::new();
    for id in [a.to_id(), b.to_id()] {
        book.update(&c(), NormalizedTick {
            venue: VenueId::Kalshi,
            contract: id,
            bid: d(0.6),
            bid_size: d(1000.0),
            ask: d(0.63),
            ask_size: d(1000.0),
            venue_ts: None,
            receive_ts: Timestamp::from_nanos(0),
        });
    }

    let up = intent(VenueId::Kalshi, a.to_id(), Side::Buy, 300.0);
    assert!(gate.check(&c(), &up, &book, Timestamp::from_nanos(0)).is_ok());
    gate.reserve(&c(), &up);

    let down = intent(VenueId::Kalshi, a.to_id(), Side::Sell, 299.0);
    match gate.check(&c(), &down, &book, Timestamp::from_nanos(0)) {
        Err(RejectReason::ClusterLimitExceeded { .. }) => {}
        other => panic!("expected ClusterLimitExceeded, got {other:?}"),
    }
}

#[test]
fn a_price_far_through_the_touch_is_rejected_by_the_collar() {
    let contract = spec(869).to_id();
    let gate = RiskGate::new_presumed_flat(RiskLimits::default());
    let book = book_with_tick(VenueId::Kalshi, contract.clone(), 0);
    let mut runaway = intent(VenueId::Kalshi, contract, Side::Buy, 1.0);
    runaway.price = d(0.95);
    match gate.check(&c(), &runaway, &book, Timestamp::from_nanos(0)) {
        Err(RejectReason::PriceThroughBook { .. }) => {}
        other => panic!("expected PriceThroughBook, got {other:?}"),
    }
}

#[test]
fn per_order_notional_limit_is_enforced() {
    let contract = spec(869).to_id();
    let limits = RiskLimits {
        max_notional_per_order: d(10.0),
        ..RiskLimits::default()
    };
    let gate = RiskGate::new_presumed_flat(limits);
    let book = book_with_tick(VenueId::Kalshi, contract.clone(), 0);
    let ord = intent(VenueId::Kalshi, contract, Side::Buy, 100.0);
    match gate.check(&c(), &ord, &book, Timestamp::from_nanos(0)) {
        Err(RejectReason::NotionalPerOrderExceeded { .. }) => {}
        other => panic!("expected NotionalPerOrderExceeded, got {other:?}"),
    }
}

#[test]
fn a_cheap_short_is_charged_the_same_notional_as_a_symmetric_buy() {
    let contract = spec(869).to_id();
    let limits = RiskLimits {
        max_notional_per_order: d(20.0),
        ..RiskLimits::default()
    };
    let gate = RiskGate::new_presumed_flat(limits);
    let mut book = ConsolidatedBook::new();
    book.update(&c(), NormalizedTick {
        venue: VenueId::Kalshi,
        contract: contract.clone(),
        bid: d(0.02),
        bid_size: d(1000.0),
        ask: d(0.03),
        ask_size: d(1000.0),
        venue_ts: None,
        receive_ts: Timestamp::from_nanos(0),
    });
    let mut cheap_short = intent(VenueId::Kalshi, contract, Side::Sell, 500.0);
    cheap_short.price = d(0.02);
    match gate.check(&c(), &cheap_short, &book, Timestamp::from_nanos(0)) {
        Err(RejectReason::NotionalPerOrderExceeded { .. }) => {}
        other => panic!("expected NotionalPerOrderExceeded, got {other:?}"),
    }
}

#[test]
fn global_kill_switch_rejects_everything() {
    let contract = spec(869).to_id();
    let mut gate = RiskGate::new_presumed_flat(RiskLimits::default());
    gate.trip_global("feed dropout");
    let book = book_with_tick(VenueId::Kalshi, contract.clone(), 0);
    let ord = intent(VenueId::Kalshi, contract, Side::Buy, 1.0);
    match gate.check(&c(), &ord, &book, Timestamp::from_nanos(0)) {
        Err(RejectReason::KillSwitch { .. }) => {}
        other => panic!("expected KillSwitch, got {other:?}"),
    }
}

#[test]
fn mark_to_market_trips_the_kill_switch_past_the_session_loss_budget() {
    let limits = RiskLimits {
        max_session_loss: d(100.0),
        ..RiskLimits::default()
    };
    let mut gate = RiskGate::new_presumed_flat(limits);
    gate.mark_to_market(&c(), d(1_000.0));
    assert!(!gate.kill_switch().is_global_tripped());
    gate.mark_to_market(&c(), d(850.0));
    assert!(gate.kill_switch().is_global_tripped());
}

#[test]
fn mark_to_market_trips_the_kill_switch_on_non_finite_equity() {
    let mut gate = RiskGate::new_presumed_flat(RiskLimits::default());
    gate.mark_to_market(&c(), d(1_000.0));
    gate.mark_to_market(&c(), d(f64::NAN));
    assert!(gate.kill_switch().is_global_tripped());
}

#[test]
fn batch_check_prevents_two_engines_from_jointly_exceeding_a_limit() {
    let contract = spec(869).to_id();
    let limits = RiskLimits {
        max_abs_qty_per_contract: d(100.0),
        ..RiskLimits::default()
    };
    let gate = RiskGate::new_presumed_flat(limits);
    let book = book_with_tick(VenueId::Kalshi, contract.clone(), 0);
    let mm_order = intent(VenueId::Kalshi, contract.clone(), Side::Buy, 60.0);
    let mut statarb_order = intent(VenueId::Kalshi, contract, Side::Buy, 60.0);
    statarb_order.engine = EngineId::StatArb;

    let results = gate.check_batch(&c(), &[mm_order, statarb_order], &book, Timestamp::from_nanos(0));
    assert!(
        results[0].is_ok(),
        "first order should clear: {:?}",
        results[0]
    );
    match &results[1] {
        Err(RejectReason::ContractLimitExceeded { .. }) => {}
        other => panic!("expected the second order to be rejected once batched, got {other:?}"),
    }
}

#[test]
fn venue_kill_switch_does_not_affect_other_venues() {
    let contract = spec(869).to_id();
    let mut gate = RiskGate::new_presumed_flat(RiskLimits::default());
    gate.trip_venue(VenueId::Polymarket, "error rate spike");

    let book_kalshi = book_with_tick(VenueId::Kalshi, contract.clone(), 0);
    let ord_kalshi = intent(VenueId::Kalshi, contract.clone(), Side::Buy, 1.0);
    assert!(gate
        .check(&c(), &ord_kalshi, &book_kalshi, Timestamp::from_nanos(0))
        .is_ok());

    let book_poly = book_with_tick(VenueId::Polymarket, contract.clone(), 0);
    let ord_poly = intent(VenueId::Polymarket, contract, Side::Buy, 1.0);
    assert!(gate
        .check(&c(), &ord_poly, &book_poly, Timestamp::from_nanos(0))
        .is_err());
}

#[test]
fn operator_reset_clears_a_trip_that_check_would_otherwise_still_see() {
    let contract = spec(869).to_id();
    let mut gate = RiskGate::new_presumed_flat(RiskLimits::default());
    let book = book_with_tick(VenueId::Kalshi, contract.clone(), 0);
    let ord = intent(VenueId::Kalshi, contract, Side::Buy, 1.0);

    gate.trip_global("test fault");
    assert!(gate.check(&c(), &ord, &book, Timestamp::from_nanos(0)).is_err());

    gate.operator_reset_kill_switches();
    assert!(gate.check(&c(), &ord, &book, Timestamp::from_nanos(0)).is_ok());
}
