use parallax::book::ConsolidatedBook;
use parallax::keyed::VenueMap;
use parallax::double::{Arithmetic, Double, Op, Style};
use parallax::strategy::calibration::Calibrator;
use parallax::strategy::engine::{StrategyEngine, StrategyInput};
use parallax::strategy::engines::stat_arb::{StatArbConfig, StatArbEngine};
use parallax::types::alpha::FairValue;
use parallax::types::contract::{CanonicalContractId, CanonicalContractSpec, Direction, EventClass};
use parallax::types::market::NormalizedTick;
use parallax::types::orders::{OrderIntent, Side};
use parallax::types::time::Timestamp;
use parallax::types::venue::VenueId;

#[allow(dead_code)]
fn c() -> Arithmetic {
    Arithmetic::new(
        |op: Op, a: u64, b: u64| -> u64 {
            let x = f64::from_bits(a);
            let y = f64::from_bits(b);
            match op {
                Op::Sum => (x + y).to_bits(),
                Op::Difference => (x - y).to_bits(),
                Op::Product => (x * y).to_bits(),
                Op::Quotient => (x / y).to_bits(),
                Op::SquareRoot => x.sqrt().to_bits(),
                Op::Exponential => x.exp().to_bits(),
                Op::Logarithm => x.ln().to_bits(),
                Op::HyperbolicTangent => x.tanh().to_bits(),
                Op::Power => x.powf(y).to_bits(),
                Op::IntegerPower => x.powi(b as i32).to_bits(),
                Op::Floor => x.floor().to_bits(),
                Op::Ceiling => x.ceil().to_bits(),
                Op::OfCount => (a as f64).to_bits(),
                Op::ToIndex => x as u64,
            }
        },
        |style: Style, x: Double| -> String {
            let v = f64::from_bits(x.bits);
            match style {
                Style::Shortest => format!("{v}"),
                Style::TwoPlaces => format!("{v:.2}"),
                Style::FourPlaces => format!("{v:.4}"),
            }
        },
    )
}

#[allow(dead_code)]
fn d(x: f64) -> Double {
    Double::from_bits(x.to_bits())
}

#[allow(dead_code)]
fn f(x: Double) -> f64 {
    f64::from_bits(x.bits)
}

fn contract() -> CanonicalContractId {
    CanonicalContractSpec {
        event_class: EventClass("wx.temp".into()),
        location: "chicago".into(),
        threshold: 869,
        direction: Direction::GreaterThan,
        resolution_window: "2026-08-12".into(),
        resolution_source: "nws_official".into(),
    }
    .to_id()
}

fn fair_value_66_pm3() -> FairValue {
    FairValue {
        contract: contract(),
        midpoint: d(0.66),
        band_low: d(0.63),
        band_high: d(0.69),
        as_of: Timestamp::from_nanos(0),
        inputs: vec![],
        effective_sample_size: d(1.0),
    }
}

fn tick(venue: VenueId, bid: f64, ask: f64) -> NormalizedTick {
    NormalizedTick {
        venue,
        contract: contract(),
        bid: d(bid),
        bid_size: d(50.0),
        ask: d(ask),
        ask_size: d(50.0),
        venue_ts: None,
        receive_ts: Timestamp::from_nanos(0),
    }
}

fn run(book: ConsolidatedBook, fv: &FairValue) -> Vec<OrderIntent> {
    let inventory = VenueMap::new();
    let calibration = Calibrator::default();
    let engine = StatArbEngine::new(StatArbConfig::default());
    let input = StrategyInput {
        contract: &contract(),
        fair_value: fv,
        book: &book,
        inventory: &inventory,
        calibration: &calibration,
        now: Timestamp::from_nanos(0),
    };
    engine.evaluate(&c(), &input)
}

#[test]
fn cheap_venue_triggers_a_buy() {
    let mut book = ConsolidatedBook::new();
    book.update(&c(), tick(VenueId::Polymarket, 0.58, 0.60));
    let intents = run(book, &fair_value_66_pm3());
    assert_eq!(intents.len(), 1);
    assert_eq!(intents[0].side, Side::Buy);
    assert_eq!(intents[0].venue, VenueId::Polymarket);
    assert!(f(intents[0].size) > 0.0);
}

#[test]
fn rich_venue_triggers_a_sell() {
    let mut book = ConsolidatedBook::new();
    book.update(&c(), tick(VenueId::Kalshi, 0.72, 0.75));
    let intents = run(book, &fair_value_66_pm3());
    assert_eq!(intents.len(), 1);
    assert_eq!(intents[0].side, Side::Sell);
    assert_eq!(intents[0].venue, VenueId::Kalshi);
}

#[test]
fn price_inside_band_triggers_nothing() {
    let mut book = ConsolidatedBook::new();
    book.update(&c(), tick(VenueId::Kalshi, 0.65, 0.67));
    let intents = run(book, &fair_value_66_pm3());
    assert!(intents.is_empty());
}

#[test]
fn larger_edge_sizes_larger() {
    let mut small_edge_book = ConsolidatedBook::new();
    small_edge_book.update(&c(), tick(VenueId::Polymarket, 0.58, 0.62));
    let small = run(small_edge_book, &fair_value_66_pm3());

    let mut large_edge_book = ConsolidatedBook::new();
    large_edge_book.update(&c(), tick(VenueId::Polymarket, 0.30, 0.35));
    let large = run(large_edge_book, &fair_value_66_pm3());

    assert!(f(large[0].size) > f(small[0].size));
}
