use parallax::double::{Arithmetic, Double, Op, Style};
use parallax::book::ConsolidatedBook;
use parallax::keyed::VenueMap;
use parallax::strategy::calibration::{Calibrator, FillOutcome};
use parallax::strategy::engine::{StrategyCore, StrategyEngine, StrategyInput};
use parallax::strategy::engines::market_making::{MarketMakingConfig, MarketMakingEngine};
use parallax::strategy::engines::sniping::{LiquiditySnipingEngine, SnipingConfig};
use parallax::strategy::engines::stat_arb::{StatArbConfig, StatArbEngine};
use parallax::strategy::position_structure::{
    PositionStructureSelector, PositionStructureState, SelectorConfig, StructureSignal,
};
use parallax::strategy::relative_value::{RelativeValueMonitor, WelfordState};
use parallax::types::alpha::FairValue;
use parallax::types::contract::CanonicalContractId;
use parallax::types::market::NormalizedTick;
use parallax::types::orders::{EngineId, OrderIntent, OrderType, Side};
use parallax::types::time::Timestamp;
use parallax::types::venue::{FeeSchedule, VenueId};

#[allow(dead_code)]
fn c() -> Arithmetic {
    Arithmetic::new(
        |op: Op, a: u64, b: u64| -> u64 {
            let x = f64::from_bits(a);
            let y = f64::from_bits(b);
            match op {
                Op::Sum => (x + y).to_bits(),
                Op::Difference => (x - y).to_bits(),
                Op::Product => (x * y).to_bits(),
                Op::Quotient => (x / y).to_bits(),
                Op::SquareRoot => x.sqrt().to_bits(),
                Op::Exponential => x.exp().to_bits(),
                Op::Logarithm => x.ln().to_bits(),
                Op::HyperbolicTangent => x.tanh().to_bits(),
                Op::Power => x.powf(y).to_bits(),
                Op::IntegerPower => x.powi(b as i32).to_bits(),
                Op::Floor => x.floor().to_bits(),
                Op::Ceiling => x.ceil().to_bits(),
                Op::OfCount => (a as f64).to_bits(),
                Op::ToIndex => x as u64,
            }
        },
        |style: Style, x: Double| -> String {
            let v = f64::from_bits(x.bits);
            match style {
                Style::Shortest => format!("{v}"),
                Style::TwoPlaces => format!("{v:.2}"),
                Style::FourPlaces => format!("{v:.4}"),
            }
        },
    )
}

#[allow(dead_code)]
fn d(x: f64) -> Double {
    Double::from_bits(x.to_bits())
}

#[allow(dead_code)]
fn f(x: Double) -> f64 {
    f64::from_bits(x.bits)
}

fn id(name: &str) -> CanonicalContractId {
    CanonicalContractId(name.into())
}

fn fair(mid: f64, half: f64, as_of: i64) -> FairValue {
    FairValue {
        contract: id("a"),
        midpoint: d(mid),
        band_low: d(mid - half),
        band_high: d(mid + half),
        as_of: Timestamp::from_nanos(as_of),
        inputs: vec![],
        effective_sample_size: d(1.0),
    }
}

fn book(quotes: &[(VenueId, f64, f64, f64)]) -> ConsolidatedBook {
    let mut book = ConsolidatedBook::new();
    for &(venue, bid, ask, size) in quotes {
        book.update(
            &c(),
            NormalizedTick {
                venue,
                contract: id("a"),
                bid: d(bid),
                bid_size: d(size),
                ask: d(ask),
                ask_size: d(size),
                venue_ts: None,
                receive_ts: Timestamp::from_nanos(5),
            },
        );
    }
    book
}

fn propose(engine: &dyn StrategyEngine, book: &ConsolidatedBook, fv: &FairValue) -> Vec<OrderIntent> {
    let inventory = VenueMap::new();
    let calibration = Calibrator::default();
    engine.evaluate(
        &c(),
        &StrategyInput {
            contract: &id("a"),
            fair_value: fv,
            book,
            inventory: &inventory,
            calibration: &calibration,
            now: Timestamp::from_nanos(5),
        },
    )
}

#[test]
fn a_rejection_moves_only_the_reject_rate() {
    let mut calibrator = Calibrator::new(d(0.5));
    calibrator.record_outcome(&c(), VenueId::Kalshi, FillOutcome::Filled, Some(d(0.02)));
    let before = calibrator.estimate(VenueId::Kalshi);
    assert_eq!((f(before.fill_probability), f(before.expected_slippage)), (0.75, 0.01));
    calibrator.record_outcome(&c(), VenueId::Kalshi, FillOutcome::Rejected, None);
    let after = calibrator.estimate(VenueId::Kalshi);
    assert_eq!(after.fill_probability, before.fill_probability);
    assert_eq!(f(after.reject_rate), 0.5);
    assert_eq!(f(calibrator.estimate(VenueId::Paper).fill_probability), 0.5);
}

#[test]
fn no_trade_inside_the_band_and_none_larger_than_the_cap() {
    let engine = StatArbEngine::new(StatArbConfig::default());
    let inside = book(&[(VenueId::Kalshi, 0.65, 0.67, 50.0)]);
    assert!(propose(&engine, &inside, &fair(0.66, 0.03, 5)).is_empty());
    let outside = book(&[(VenueId::Kalshi, 0.05, 0.06, 50.0)]);
    let orders = propose(&engine, &outside, &fair(0.66, 0.03, 5));
    assert_eq!(orders.len(), 1);
    assert!(f(orders[0].size) <= f(StatArbConfig::default().max_order_size));
    assert_eq!(orders[0].engine, EngineId::StatArb);
}

#[test]
fn a_snipe_needs_a_newer_view_and_takes_what_rests() {
    let engine = LiquiditySnipingEngine::new(SnipingConfig::default());
    let cheap = book(&[(VenueId::Kalshi, 0.50, 0.55, 7.0)]);
    assert!(propose(&engine, &cheap, &fair(0.66, 0.03, 4)).is_empty());
    let orders = propose(&engine, &cheap, &fair(0.66, 0.03, 5));
    assert_eq!(orders.len(), 1);
    assert_eq!((f(orders[0].price), f(orders[0].size)), (0.55, 7.0));
    assert_eq!(orders[0].order_type, OrderType::ImmediateOrCancel);
}

#[test]
fn every_quote_names_a_venue_of_the_book_and_is_a_probability() {
    let engine = MarketMakingEngine::new(MarketMakingConfig::default());
    let both = book(&[
        (VenueId::Kalshi, 0.98, 0.99, 7.0),
        (VenueId::Polymarket, 0.97, 0.99, 7.0),
    ]);
    let orders = propose(&engine, &both, &fair(0.985, 0.01, 5));
    assert!(!orders.is_empty());
    for order in &orders {
        assert!(order.venue != VenueId::Paper);
        assert!(f(order.price) > 0.0 && f(order.price) < 1.0, "{}", f(order.price));
    }
}

#[test]
fn urgency_is_the_order_whatever_the_order_of_registration() {
    let core = StrategyCore::new(vec![
        Box::new(MarketMakingEngine::new(MarketMakingConfig {
            ladder_levels: 1,
            ..MarketMakingConfig::default()
        })),
        Box::new(StatArbEngine::new(StatArbConfig::default())),
        Box::new(LiquiditySnipingEngine::new(SnipingConfig::default())),
    ]);
    let cheap = book(&[(VenueId::Kalshi, 0.50, 0.55, 7.0)]);
    let fv = fair(0.66, 0.03, 5);
    let inventory = VenueMap::new();
    let calibration = Calibrator::default();
    let orders = core.evaluate_all(
        &c(),
        &StrategyInput {
            contract: &id("a"),
            fair_value: &fv,
            book: &cheap,
            inventory: &inventory,
            calibration: &calibration,
            now: Timestamp::from_nanos(5),
        },
    );
    let engines: Vec<EngineId> = orders.iter().map(|o| o.engine).collect();
    assert_eq!(
        engines,
        [
            EngineId::LiquiditySniping,
            EngineId::StatArb,
            EngineId::MarketMaking,
            EngineId::MarketMaking
        ]
    );
}

#[test]
fn the_half_spread_covers_the_fees_of_a_round_trip() {
    let engine = MarketMakingEngine::new(MarketMakingConfig {
        base_half_spread: d(0.001),
        ..MarketMakingConfig::default()
    });
    for venue in [VenueId::Kalshi, VenueId::Polymarket, VenueId::Paper] {
        let fees = FeeSchedule::default().at(venue);
        let trip = f(fees.round_trip(&c(), d(0.5)));
        assert!(trip >= 2.0 * f(fees.fee(&c(), false, d(1.0), d(0.5))));
        assert!(trip >= 2.0 * f(fees.fee(&c(), true, d(1.0), d(0.5))));
        let quoted = book(&[(venue, 0.49, 0.51, 7.0)]);
        let orders = propose(&engine, &quoted, &fair(0.5, 0.0, 5));
        assert_eq!(orders.len(), 6);
        for order in &orders {
            match order.side {
                Side::Buy => assert!(f(order.price) <= 0.5 - trip, "{}", f(order.price)),
                Side::Sell => assert!(f(order.price) >= 0.5 + trip, "{}", f(order.price)),
            }
        }
    }
    let trip = f(FeeSchedule::default().at(VenueId::Polymarket).round_trip(&c(), d(0.5)));
    assert_eq!(trip, 0.03125);
}

#[test]
fn the_order_of_a_pair_turns_the_gap_round_and_nothing_else() {
    let (a, b) = (id("a"), id("b"));
    let mut monitor = RelativeValueMonitor::new(d(0.001));
    for gap in [0.01, 0.03] {
        monitor.update_and_score(&c(), &a, &b, d(gap));
    }
    assert_eq!(f(monitor.typical_gap(&c(), &a, &b).unwrap()), 0.02);
    assert_eq!(f(monitor.typical_gap(&c(), &b, &a).unwrap()), -0.02);
    assert_eq!(monitor.gap_volatility(&c(), &a, &b), monitor.gap_volatility(&c(), &b, &a));
    assert!(monitor.typical_gap(&c(), &a, &id("c")).is_none());
}

#[test]
fn one_observation_has_no_deviation() {
    let mut state = WelfordState::default();
    assert!(state.std_dev(&c()).is_none());
    state.update(&c(), d(2.0));
    assert!(state.std_dev(&c()).is_none());
    state.update(&c(), d(4.0));
    assert!((f(state.std_dev(&c()).unwrap()) - 2.0f64.sqrt()).abs() < 1e-12);
    assert_eq!((state.count, f(state.mean)), (2, 3.0));
}

#[test]
fn the_kill_switch_wins_over_every_other_signal() {
    let mut selector = PositionStructureSelector::new(SelectorConfig::default());
    let signal = StructureSignal {
        kill_switch: true,
        feeds_healthy: true,
        relative_score: Some(d(9.0)),
        tradable_edge: Some(d(0.5)),
        band_width: d(0.5),
        ..StructureSignal::default()
    };
    assert_eq!(selector.step(&c(), &signal), PositionStructureState::Halted);
}

#[test]
fn a_rotation_waits_for_the_dwell_time_and_a_hedge_is_unwound() {
    let mut selector = PositionStructureSelector::new(SelectorConfig::default());
    let building = StructureSignal {
        tradable_edge: Some(d(0.05)),
        band_width: d(0.10),
        ..StructureSignal::default()
    };
    assert_eq!(selector.step(&c(), &building), PositionStructureState::HedgedBuilding);
    let elsewhere = StructureSignal { fresher_edge_elsewhere: true, ..StructureSignal::default() };
    assert_eq!(selector.step(&c(), &elsewhere), PositionStructureState::Unwinding);
    let waiting = StructureSignal::default();
    assert_eq!(selector.step(&c(), &waiting), PositionStructureState::Unwinding);
    let released = StructureSignal { capital_released: true, ..StructureSignal::default() };
    assert_eq!(selector.step(&c(), &released), PositionStructureState::Flat);
}
