use parallax::book::ConsolidatedBook;
use parallax::keyed::VenueMap;
use parallax::double::{Arithmetic, Double, Op, Style};
use parallax::strategy::calibration::Calibrator;
use parallax::strategy::engine::{StrategyEngine, StrategyInput};
use parallax::strategy::engines::market_making::{MarketMakingConfig, MarketMakingEngine};
use parallax::types::alpha::FairValue;
use parallax::types::contract::{CanonicalContractId, CanonicalContractSpec, Direction, EventClass};
use parallax::types::market::NormalizedTick;
use parallax::types::orders::{OrderIntent, Side};
use parallax::types::time::Timestamp;
use parallax::types::venue::VenueId;

#[allow(dead_code)]
fn c() -> Arithmetic {
    Arithmetic::new(
        |op: Op, a: u64, b: u64| -> u64 {
            let x = f64::from_bits(a);
            let y = f64::from_bits(b);
            match op {
                Op::Sum => (x + y).to_bits(),
                Op::Difference => (x - y).to_bits(),
                Op::Product => (x * y).to_bits(),
                Op::Quotient => (x / y).to_bits(),
                Op::SquareRoot => x.sqrt().to_bits(),
                Op::Exponential => x.exp().to_bits(),
                Op::Logarithm => x.ln().to_bits(),
                Op::HyperbolicTangent => x.tanh().to_bits(),
                Op::Power => x.powf(y).to_bits(),
                Op::IntegerPower => x.powi(b as i32).to_bits(),
                Op::Floor => x.floor().to_bits(),
                Op::Ceiling => x.ceil().to_bits(),
                Op::OfCount => (a as f64).to_bits(),
                Op::ToIndex => x as u64,
            }
        },
        |style: Style, x: Double| -> String {
            let v = f64::from_bits(x.bits);
            match style {
                Style::Shortest => format!("{v}"),
                Style::TwoPlaces => format!("{v:.2}"),
                Style::FourPlaces => format!("{v:.4}"),
            }
        },
    )
}

#[allow(dead_code)]
fn d(x: f64) -> Double {
    Double::from_bits(x.to_bits())
}

#[allow(dead_code)]
fn f(x: Double) -> f64 {
    f64::from_bits(x.bits)
}

fn contract() -> CanonicalContractId {
    CanonicalContractSpec {
        event_class: EventClass("wx.temp".into()),
        location: "chicago".into(),
        threshold: 869,
        direction: Direction::GreaterThan,
        resolution_window: "2026-08-12".into(),
        resolution_source: "nws_official".into(),
    }
    .to_id()
}

fn fair_value(mid: f64, band_half_width: f64) -> FairValue {
    FairValue {
        contract: contract(),
        midpoint: d(mid),
        band_low: d((mid - band_half_width).clamp(0.0, 1.0)),
        band_high: d((mid + band_half_width).clamp(0.0, 1.0)),
        as_of: Timestamp::from_nanos(0),
        inputs: vec![],
        effective_sample_size: d(1.0),
    }
}

fn book_quoting(venue: VenueId) -> ConsolidatedBook {
    let mut book = ConsolidatedBook::new();
    book.update(&c(), NormalizedTick {
        venue,
        contract: contract(),
        bid: d(0.6),
        bid_size: d(10.0),
        ask: d(0.64),
        ask_size: d(10.0),
        venue_ts: None,
        receive_ts: Timestamp::from_nanos(0),
    });
    book
}

#[test]
fn quotes_are_centered_on_fair_value_when_flat() {
    let engine = MarketMakingEngine::new(MarketMakingConfig::default());
    let book = book_quoting(VenueId::Kalshi);
    let fv = fair_value(0.66, 0.02);
    let inventory = VenueMap::new();
    let calibration = Calibrator::default();
    let input = StrategyInput {
        contract: &contract(),
        fair_value: &fv,
        book: &book,
        inventory: &inventory,
        calibration: &calibration,
        now: Timestamp::from_nanos(0),
    };
    let intents = engine.evaluate(&c(), &input);
    assert!(!intents.is_empty());
    let best_bid = intents
        .iter()
        .filter(|i| i.side == Side::Buy)
        .map(|i| f(i.price))
        .fold(f64::MIN, f64::max);
    let best_ask = intents
        .iter()
        .filter(|i| i.side == Side::Sell)
        .map(|i| f(i.price))
        .fold(f64::MAX, f64::min);
    assert!((0.66 - best_bid) > 0.0);
    assert!((best_ask - 0.66) > 0.0);
    assert!(((0.66 - best_bid) - (best_ask - 0.66)).abs() < 1e-9);
}

#[test]
fn wider_confidence_band_widens_the_quoted_spread() {
    let engine = MarketMakingEngine::new(MarketMakingConfig::default());
    let book = book_quoting(VenueId::Kalshi);
    let inventory = VenueMap::new();
    let calibration = Calibrator::default();

    let tight = fair_value(0.66, 0.01);
    let input_tight = StrategyInput {
        contract: &contract(),
        fair_value: &tight,
        book: &book,
        inventory: &inventory,
        calibration: &calibration,
        now: Timestamp::from_nanos(0),
    };
    let wide = fair_value(0.66, 0.10);
    let input_wide = StrategyInput {
        fair_value: &wide,
        ..input_tight_clone(&input_tight)
    };

    let tight_intents = engine.evaluate(&c(), &input_tight);
    let wide_intents = engine.evaluate(&c(), &input_wide);
    let tight_best_ask = tight_intents
        .iter()
        .filter(|i| i.side == Side::Sell)
        .map(|i| f(i.price))
        .fold(f64::MAX, f64::min);
    let wide_best_ask = wide_intents
        .iter()
        .filter(|i| i.side == Side::Sell)
        .map(|i| f(i.price))
        .fold(f64::MAX, f64::min);
    assert!(wide_best_ask > tight_best_ask);
}
fn input_tight_clone<'a>(input: &StrategyInput<'a>) -> StrategyInput<'a> {
    StrategyInput {
        contract: input.contract,
        fair_value: input.fair_value,
        book: input.book,
        inventory: input.inventory,
        calibration: input.calibration,
        now: input.now,
    }
}

#[test]
fn positive_inventory_skews_quotes_down() {
    let engine = MarketMakingEngine::new(MarketMakingConfig::default());
    let book = book_quoting(VenueId::Kalshi);
    let fv = fair_value(0.66, 0.02);
    let calibration = Calibrator::default();

    let mut flat_inv = VenueMap::new();
    flat_inv.set(VenueId::Kalshi, Some(d(0.0)));
    let flat_input = StrategyInput {
        contract: &contract(),
        fair_value: &fv,
        book: &book,
        inventory: &flat_inv,
        calibration: &calibration,
        now: Timestamp::from_nanos(0),
    };

    let mut long_inv = VenueMap::new();
    long_inv.set(VenueId::Kalshi, Some(d(400.0)));
    let long_input = StrategyInput {
        inventory: &long_inv,
        ..input_tight_clone(&flat_input)
    };

    let flat_mid = mid_of(&engine.evaluate(&c(), &flat_input));
    let long_mid = mid_of(&engine.evaluate(&c(), &long_input));
    assert!(
        long_mid < flat_mid,
        "long inventory should skew quotes down: flat={flat_mid} long={long_mid}"
    );
}

fn mid_of(intents: &[OrderIntent]) -> f64 {
    let best_bid = intents
        .iter()
        .filter(|i| i.side == Side::Buy)
        .map(|i| f(i.price))
        .fold(f64::MIN, f64::max);
    let best_ask = intents
        .iter()
        .filter(|i| i.side == Side::Sell)
        .map(|i| f(i.price))
        .fold(f64::MAX, f64::min);
    (best_bid + best_ask) / 2.0
}
