use parallax::book::ConsolidatedBook;
use parallax::keyed::VenueMap;
use parallax::double::{Arithmetic, Double, Op, Style};
use parallax::strategy::calibration::Calibrator;
use parallax::strategy::engine::{StrategyEngine, StrategyInput};
use parallax::strategy::engines::sniping::{LiquiditySnipingEngine, SnipingConfig};
use parallax::types::alpha::FairValue;
use parallax::types::contract::{CanonicalContractId, CanonicalContractSpec, Direction, EventClass};
use parallax::types::market::NormalizedTick;
use parallax::types::orders::{OrderIntent, OrderType};
use parallax::types::time::Timestamp;
use parallax::types::venue::VenueId;

#[allow(dead_code)]
fn c() -> Arithmetic {
    Arithmetic::new(
        |op: Op, a: u64, b: u64| -> u64 {
            let x = f64::from_bits(a);
            let y = f64::from_bits(b);
            match op {
                Op::Sum => (x + y).to_bits(),
                Op::Difference => (x - y).to_bits(),
                Op::Product => (x * y).to_bits(),
                Op::Quotient => (x / y).to_bits(),
                Op::SquareRoot => x.sqrt().to_bits(),
                Op::Exponential => x.exp().to_bits(),
                Op::Logarithm => x.ln().to_bits(),
                Op::HyperbolicTangent => x.tanh().to_bits(),
                Op::Power => x.powf(y).to_bits(),
                Op::IntegerPower => x.powi(b as i32).to_bits(),
                Op::Floor => x.floor().to_bits(),
                Op::Ceiling => x.ceil().to_bits(),
                Op::OfCount => (a as f64).to_bits(),
                Op::ToIndex => x as u64,
            }
        },
        |style: Style, x: Double| -> String {
            let v = f64::from_bits(x.bits);
            match style {
                Style::Shortest => format!("{v}"),
                Style::TwoPlaces => format!("{v:.2}"),
                Style::FourPlaces => format!("{v:.4}"),
            }
        },
    )
}

#[allow(dead_code)]
fn d(x: f64) -> Double {
    Double::from_bits(x.to_bits())
}

#[allow(dead_code)]
fn f(x: Double) -> f64 {
    f64::from_bits(x.bits)
}

fn contract() -> CanonicalContractId {
    CanonicalContractSpec {
        event_class: EventClass("wx.temp".into()),
        location: "chicago".into(),
        threshold: 869,
        direction: Direction::GreaterThan,
        resolution_window: "2026-08-12".into(),
        resolution_source: "nws_official".into(),
    }
    .to_id()
}

fn fair_value_66_pm3() -> FairValue {
    FairValue {
        contract: contract(),
        midpoint: d(0.66),
        band_low: d(0.63),
        band_high: d(0.69),
        as_of: Timestamp::from_nanos(0),
        inputs: vec![],
        effective_sample_size: d(1.0),
    }
}

fn run(book: ConsolidatedBook) -> Vec<OrderIntent> {
    let inventory = VenueMap::new();
    let calibration = Calibrator::default();
    let engine = LiquiditySnipingEngine::new(SnipingConfig::default());
    let fv = fair_value_66_pm3();
    let input = StrategyInput {
        contract: &contract(),
        fair_value: &fv,
        book: &book,
        inventory: &inventory,
        calibration: &calibration,
        now: Timestamp::from_nanos(0),
    };
    engine.evaluate(&c(), &input)
}

#[test]
fn snipes_exactly_the_resting_size_at_a_stale_cheap_quote() {
    let mut book = ConsolidatedBook::new();
    book.update(&c(), NormalizedTick {
        venue: VenueId::Polymarket,
        contract: contract(),
        bid: d(0.55),
        bid_size: d(20.0),
        ask: d(0.58),
        ask_size: d(42.0),
        venue_ts: None,
        receive_ts: Timestamp::from_nanos(0),
    });
    let intents = run(book);
    assert_eq!(intents.len(), 1);
    assert_eq!(intents[0].order_type, OrderType::ImmediateOrCancel);
    assert_eq!(f(intents[0].size), 42.0);
}

#[test]
fn edge_below_threshold_does_not_snipe() {
    let mut book = ConsolidatedBook::new();
    book.update(&c(), NormalizedTick {
        venue: VenueId::Polymarket,
        contract: contract(),
        bid: d(0.60),
        bid_size: d(20.0),
        ask: d(0.615),
        ask_size: d(42.0),
        venue_ts: None,
        receive_ts: Timestamp::from_nanos(0),
    });
    assert!(run(book).is_empty());
}

#[test]
fn order_size_never_exceeds_available_resting_liquidity() {
    let mut book = ConsolidatedBook::new();
    book.update(&c(), NormalizedTick {
        venue: VenueId::Polymarket,
        contract: contract(),
        bid: d(0.55),
        bid_size: d(20.0),
        ask: d(0.50),
        ask_size: d(5.0),
        venue_ts: None,
        receive_ts: Timestamp::from_nanos(0),
    });
    let intents = run(book);
    assert_eq!(f(intents[0].size), 5.0);
}

#[test]
fn a_fair_value_that_predates_the_quote_does_not_snipe() {
    let mut book = ConsolidatedBook::new();
    book.update(&c(), NormalizedTick {
        venue: VenueId::Polymarket,
        contract: contract(),
        bid: d(0.55),
        bid_size: d(20.0),
        ask: d(0.58),
        ask_size: d(42.0),
        venue_ts: None,
        receive_ts: Timestamp::from_nanos(1_000_000_000),
    });
    let inventory = VenueMap::new();
    let calibration = Calibrator::default();
    let engine = LiquiditySnipingEngine::new(SnipingConfig::default());
    let mut fv = fair_value_66_pm3();
    fv.as_of = Timestamp::from_nanos(0);
    let input = StrategyInput {
        contract: &contract(),
        fair_value: &fv,
        book: &book,
        inventory: &inventory,
        calibration: &calibration,
        now: Timestamp::from_nanos(1_000_000_000),
    };
    assert!(engine.evaluate(&c(), &input).is_empty());
}
