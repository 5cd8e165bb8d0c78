use parallax::double::{Arithmetic, Double, Op, Style};
use parallax::strategy::position_structure::{PositionStructureSelector, PositionStructureState, SelectorConfig, StructureSignal};
use parallax::types::time::Timestamp;

#[allow(dead_code)]
fn c() -> Arithmetic {
    Arithmetic::new(
        |op: Op, a: u64, b: u64| -> u64 {
            let x = f64::from_bits(a);
            let y = f64::from_bits(b);
            match op {
                Op::Sum => (x + y).to_bits(),
                Op::Difference => (x - y).to_bits(),
                Op::Product => (x * y).to_bits(),
                Op::Quotient => (x / y).to_bits(),
                Op::SquareRoot => x.sqrt().to_bits(),
                Op::Exponential => x.exp().to_bits(),
                Op::Logarithm => x.ln().to_bits(),
                Op::HyperbolicTangent => x.tanh().to_bits(),
                Op::Power => x.powf(y).to_bits(),
                Op::IntegerPower => x.powi(b as i32).to_bits(),
                Op::Floor => x.floor().to_bits(),
                Op::Ceiling => x.ceil().to_bits(),
                Op::OfCount => (a as f64).to_bits(),
                Op::ToIndex => x as u64,
            }
        },
        |style: Style, x: Double| -> String {
            let v = f64::from_bits(x.bits);
            match style {
                Style::Shortest => format!("{v}"),
                Style::TwoPlaces => format!("{v:.2}"),
                Style::FourPlaces => format!("{v:.4}"),
            }
        },
    )
}

#[allow(dead_code)]
fn d(x: f64) -> Double {
    Double::from_bits(x.to_bits())
}

#[allow(dead_code)]
fn f(x: Double) -> f64 {
    f64::from_bits(x.bits)
}

fn signal_at(now_ns: i64) -> StructureSignal {
    StructureSignal {
        now: Timestamp::from_nanos(now_ns),
        ..Default::default()
    }
}

#[test]
fn starts_flat() {
    let selector = PositionStructureSelector::new(SelectorConfig::default());
    assert_eq!(selector.state(), PositionStructureState::Flat);
}

#[test]
fn kill_switch_halts_from_any_active_state() {
    let mut selector = PositionStructureSelector::new(SelectorConfig::default());
    let mut sig = signal_at(0);
    sig.relative_score = Some(d(5.0));
    selector.step(&c(), &sig);

    let mut kill = signal_at(1);
    kill.kill_switch = true;
    assert_eq!(selector.step(&c(), &kill), PositionStructureState::Halted);
}

#[test]
fn halted_only_recovers_once_feeds_are_healthy() {
    let mut selector = PositionStructureSelector::new(SelectorConfig::default());
    let mut kill = signal_at(0);
    kill.kill_switch = true;
    selector.step(&c(), &kill);
    assert_eq!(selector.state(), PositionStructureState::Halted);

    let unhealthy = signal_at(1);
    assert_eq!(selector.step(&c(), &unhealthy), PositionStructureState::Halted);

    let mut healthy = signal_at(2);
    healthy.feeds_healthy = true;
    assert_eq!(selector.step(&c(), &healthy), PositionStructureState::Flat);
}

#[test]
fn large_relative_score_opens_a_temporal_scan() {
    let mut selector = PositionStructureSelector::new(SelectorConfig::default());
    let mut sig = signal_at(0);
    sig.relative_score = Some(d(-3.0));
    assert_eq!(
        selector.step(&c(), &sig),
        PositionStructureState::ScanningTemporal
    );
}

#[test]
fn scanning_temporal_builds_hedge_once_reversal_and_second_leg_confirm() {
    let mut selector = PositionStructureSelector::new(SelectorConfig::default());
    let mut open = signal_at(0);
    open.relative_score = Some(d(3.0));
    selector.step(&c(), &open);

    let mut confirmed = signal_at(1);
    confirmed.reversal_confirmed = true;
    confirmed.second_leg_filled = true;
    assert_eq!(
        selector.step(&c(), &confirmed),
        PositionStructureState::HedgedBuilding
    );
}

#[test]
fn scanning_temporal_gives_up_when_the_signal_decays_first() {
    let mut selector = PositionStructureSelector::new(SelectorConfig::default());
    let mut open = signal_at(0);
    open.relative_score = Some(d(3.0));
    selector.step(&c(), &open);

    let decayed = signal_at(1);
    assert_eq!(selector.step(&c(), &decayed), PositionStructureState::Flat);
}

#[test]
fn positive_edge_with_a_wide_band_builds_a_hedge_directly_from_flat() {
    let mut selector = PositionStructureSelector::new(SelectorConfig::default());
    let mut sig = signal_at(0);
    sig.tradable_edge = Some(d(0.05));
    sig.band_width = d(0.10);
    assert_eq!(selector.step(&c(), &sig), PositionStructureState::HedgedBuilding);
}

#[test]
fn near_resolution_hold_triggers_on_low_tau_and_high_confidence() {
    let mut selector = PositionStructureSelector::new(SelectorConfig::default());
    let mut sig = signal_at(0);
    sig.seconds_remaining = d(10.0);
    sig.p_up = d(0.99);
    assert_eq!(
        selector.step(&c(), &sig),
        PositionStructureState::NearResolutionHold
    );
}

#[test]
fn near_resolution_hold_unwinds_on_rare_loss_guard_or_resolution() {
    let mut selector = PositionStructureSelector::new(SelectorConfig::default());
    let mut open = signal_at(0);
    open.seconds_remaining = d(5.0);
    open.p_up = d(0.995);
    selector.step(&c(), &open);
    assert_eq!(selector.state(), PositionStructureState::NearResolutionHold);

    let mut tripped = signal_at(1);
    tripped.rare_loss_guard_tripped = true;
    assert_eq!(selector.step(&c(), &tripped), PositionStructureState::Unwinding);
}

#[test]
fn rotating_requires_both_the_hysteresis_crossing_and_a_clear_dwell_timer() {
    let mut selector = PositionStructureSelector::new(SelectorConfig::default());
    let mut cross = signal_at(0);
    cross.fair_value_mid = d(0.60);
    cross.market_price = d(0.50);
    assert_eq!(selector.step(&c(), &cross), PositionStructureState::Rotating);
    let mut too_soon = signal_at(1);
    too_soon.fair_value_mid = d(0.61);
    too_soon.market_price = d(0.50);
    assert_eq!(selector.step(&c(), &too_soon), PositionStructureState::Rotating);

    let mut later = signal_at(3_000_000_000);
    later.fair_value_mid = d(0.62);
    later.market_price = d(0.50);
    assert_eq!(selector.step(&c(), &later), PositionStructureState::Rotating);
}

#[test]
fn rotating_returns_to_flat_once_score_and_edge_both_decay() {
    let mut selector = PositionStructureSelector::new(SelectorConfig::default());
    let mut cross = signal_at(0);
    cross.fair_value_mid = d(0.60);
    cross.market_price = d(0.50);
    selector.step(&c(), &cross);
    assert_eq!(selector.state(), PositionStructureState::Rotating);

    let mut decayed = signal_at(3_000_000_000);
    decayed.fair_value_mid = d(0.501);
    decayed.market_price = d(0.50);
    assert_eq!(selector.step(&c(), &decayed), PositionStructureState::Flat);
}

#[test]
fn hedged_building_unwinds_at_the_inventory_limit_or_a_fresher_edge() {
    let mut selector = PositionStructureSelector::new(SelectorConfig::default());
    let mut open = signal_at(0);
    open.tradable_edge = Some(d(0.05));
    open.band_width = d(0.10);
    selector.step(&c(), &open);
    assert_eq!(selector.state(), PositionStructureState::HedgedBuilding);

    let mut limited = signal_at(1);
    limited.inventory_at_limit = true;
    assert_eq!(selector.step(&c(), &limited), PositionStructureState::Unwinding);
}

#[test]
fn unwinding_returns_to_flat_once_capital_is_released() {
    let mut selector = PositionStructureSelector::new(SelectorConfig::default());
    let mut open = signal_at(0);
    open.tradable_edge = Some(d(0.05));
    open.band_width = d(0.10);
    selector.step(&c(), &open);
    let mut limited = signal_at(1);
    limited.inventory_at_limit = true;
    selector.step(&c(), &limited);
    assert_eq!(selector.state(), PositionStructureState::Unwinding);

    let mut released = signal_at(2);
    released.capital_released = true;
    assert_eq!(selector.step(&c(), &released), PositionStructureState::Flat);
}
