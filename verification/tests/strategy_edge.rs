use parallax::book::ConsolidatedBook;
use parallax::double::{Arithmetic, Double, Op, Style};
use parallax::strategy::calibration::Calibrator;
use parallax::strategy::edge::{EdgeConfig, EdgeContext, compute_tradable_edge, largest_profitable_size};
use parallax::types::alpha::FairValue;
use parallax::types::contract::{CanonicalContractId, CanonicalContractSpec, Direction, EventClass};
use parallax::types::market::{BookDepth, DepthLevel};
use parallax::types::orders::Side;
use parallax::types::time::Timestamp;
use parallax::types::venue::VenueId;

#[allow(dead_code)]
fn c() -> Arithmetic {
    Arithmetic::new(
        |op: Op, a: u64, b: u64| -> u64 {
            let x = f64::from_bits(a);
            let y = f64::from_bits(b);
            match op {
                Op::Sum => (x + y).to_bits(),
                Op::Difference => (x - y).to_bits(),
                Op::Product => (x * y).to_bits(),
                Op::Quotient => (x / y).to_bits(),
                Op::SquareRoot => x.sqrt().to_bits(),
                Op::Exponential => x.exp().to_bits(),
                Op::Logarithm => x.ln().to_bits(),
                Op::HyperbolicTangent => x.tanh().to_bits(),
                Op::Power => x.powf(y).to_bits(),
                Op::IntegerPower => x.powi(b as i32).to_bits(),
                Op::Floor => x.floor().to_bits(),
                Op::Ceiling => x.ceil().to_bits(),
                Op::OfCount => (a as f64).to_bits(),
                Op::ToIndex => x as u64,
            }
        },
        |style: Style, x: Double| -> String {
            let v = f64::from_bits(x.bits);
            match style {
                Style::Shortest => format!("{v}"),
                Style::TwoPlaces => format!("{v:.2}"),
                Style::FourPlaces => format!("{v:.4}"),
            }
        },
    )
}

#[allow(dead_code)]
fn d(x: f64) -> Double {
    Double::from_bits(x.to_bits())
}

#[allow(dead_code)]
fn f(x: Double) -> f64 {
    f64::from_bits(x.bits)
}

fn contract() -> CanonicalContractId {
    CanonicalContractSpec {
        event_class: EventClass("crypto.updown".into()),
        location: "btc".into(),
        threshold: 0,
        direction: Direction::GreaterThan,
        resolution_window: "2026-08-12t12-05-00z".into(),
        resolution_source: "binance".into(),
    }
    .to_id()
}

fn fair_value(mid: f64, band_half_width: f64) -> FairValue {
    FairValue {
        contract: contract(),
        midpoint: d(mid),
        band_low: d((mid - band_half_width).clamp(0.0, 1.0)),
        band_high: d((mid + band_half_width).clamp(0.0, 1.0)),
        as_of: Timestamp::from_nanos(0),
        inputs: vec![],
        effective_sample_size: d(1.0),
    }
}

fn book_with_ask_levels(levels: &[(f64, f64)]) -> ConsolidatedBook {
    let mut book = ConsolidatedBook::new();
    book.update_depth(BookDepth {
        venue: VenueId::Polymarket,
        contract: contract(),
        bids: vec![DepthLevel {
            price: d(0.50),
            size: d(1000.0),
        }],
        asks: levels
            .iter()
            .map(|&(price, size)| DepthLevel { price: d(price), size: d(size) })
            .collect(),
        receive_ts: Timestamp::from_nanos(0),
    });
    book
}

fn ctx<'a>(
    fair_value: &'a FairValue,
    book: &'a ConsolidatedBook,
    contract: &'a CanonicalContractId,
    calibration: &'a Calibrator,
    config: &'a EdgeConfig,
) -> EdgeContext<'a> {
    EdgeContext {
        fair_value,
        book,
        contract,
        venue: VenueId::Polymarket,
        side: Side::Buy,
        calibration,
        config,
    }
}

#[test]
fn returns_none_without_a_depth_snapshot() {
    let book = ConsolidatedBook::new();
    let fv = fair_value(0.70, 0.02);
    let contract = contract();
    let calibration = Calibrator::default();
    let config = EdgeConfig::default();
    let result =
        compute_tradable_edge(&c(), &ctx(&fv, &book, &contract, &calibration, &config), d(10.0));
    assert!(result.is_none());
}

#[test]
fn small_size_against_a_deep_cheap_book_is_profitable() {
    let book = book_with_ask_levels(&[(0.55, 500.0)]);
    let fv = fair_value(0.70, 0.01);
    let contract = contract();
    let calibration = Calibrator::default();
    let config = EdgeConfig::default();
    let result =
        compute_tradable_edge(&c(), &ctx(&fv, &book, &contract, &calibration, &config), d(10.0))
            .unwrap();
    assert!((f(result.expected_avg_entry) - 0.55).abs() < 1e-9);
    assert!(
        f(result.tradable_edge) > 0.0,
        "edge was {}",
        f(result.tradable_edge)
    );
}

#[test]
fn walking_deeper_into_a_thin_book_shrinks_the_edge() {
    let book = book_with_ask_levels(&[(0.61, 10.0), (0.75, 500.0)]);
    let fv = fair_value(0.70, 0.005);
    let contract = contract();
    let calibration = Calibrator::default();
    let config = EdgeConfig::default();
    let context = ctx(&fv, &book, &contract, &calibration, &config);

    let small = compute_tradable_edge(&c(), &context, d(10.0)).unwrap();
    let large = compute_tradable_edge(&c(), &context, d(200.0)).unwrap();

    assert!(
        f(small.tradable_edge) > 0.0,
        "small size should still be profitable, got {}",
        f(small.tradable_edge)
    );
    assert!(
        f(large.tradable_edge) < f(small.tradable_edge),
        "large={} small={}",
        f(large.tradable_edge),
        f(small.tradable_edge)
    );
}

#[test]
fn wider_confidence_band_demands_more_edge() {
    let book = book_with_ask_levels(&[(0.60, 100.0)]);
    let contract = contract();
    let calibration = Calibrator::default();
    let config = EdgeConfig::default();

    let tight_fv = fair_value(0.70, 0.01);
    let tight = compute_tradable_edge(
        &c(),
        &ctx(&tight_fv, &book, &contract, &calibration, &config),
        d(10.0),
    )
    .unwrap();
    let wide_fv = fair_value(0.70, 0.10);
    let wide = compute_tradable_edge(
        &c(),
        &ctx(&wide_fv, &book, &contract, &calibration, &config),
        d(10.0),
    )
    .unwrap();

    assert!(f(wide.tradable_edge) < f(tight.tradable_edge));
}

#[test]
fn largest_profitable_size_picks_the_biggest_size_that_still_clears_the_bar() {
    let book = book_with_ask_levels(&[(0.60, 30.0), (0.75, 200.0)]);
    let fv = fair_value(0.70, 0.005);
    let contract = contract();
    let calibration = Calibrator::default();
    let config = EdgeConfig {
        safety_margin_k: d(0.5),
        taker_fee_bps: d(50.0),
    };

    let result = largest_profitable_size(
        &c(),
        &ctx(&fv, &book, &contract, &calibration, &config),
        &[d(10.0), d(30.0), d(100.0), d(300.0)],
    )
    .unwrap();
    assert_eq!(f(result.size), 30.0);
}

#[test]
fn no_candidate_size_profitable_returns_none() {
    let book = book_with_ask_levels(&[(0.72, 500.0)]);
    let fv = fair_value(0.70, 0.005);
    let contract = contract();
    let calibration = Calibrator::default();
    let config = EdgeConfig::default();
    let result = largest_profitable_size(
        &c(),
        &ctx(&fv, &book, &contract, &calibration, &config),
        &[d(10.0), d(50.0)],
    );
    assert!(result.is_none());
}
