use parallax::alpha::source::AlphaSource;
use parallax::alpha::payload::{Payload, ReferenceDistancePayload};
use parallax::alpha::sources::reference_distance::ReferenceDistanceSource;
use parallax::double::{Arithmetic, Double, Op, Style};
use parallax::types::alpha::{AlphaEventKind, RawEvent};
use parallax::types::time::Timestamp;

#[allow(dead_code)]
fn c() -> Arithmetic {
    Arithmetic::new(
        |op: Op, a: u64, b: u64| -> u64 {
            let x = f64::from_bits(a);
            let y = f64::from_bits(b);
            match op {
                Op::Sum => (x + y).to_bits(),
                Op::Difference => (x - y).to_bits(),
                Op::Product => (x * y).to_bits(),
                Op::Quotient => (x / y).to_bits(),
                Op::SquareRoot => x.sqrt().to_bits(),
                Op::Exponential => x.exp().to_bits(),
                Op::Logarithm => x.ln().to_bits(),
                Op::HyperbolicTangent => x.tanh().to_bits(),
                Op::Power => x.powf(y).to_bits(),
                Op::IntegerPower => x.powi(b as i32).to_bits(),
                Op::Floor => x.floor().to_bits(),
                Op::Ceiling => x.ceil().to_bits(),
                Op::OfCount => (a as f64).to_bits(),
                Op::ToIndex => x as u64,
            }
        },
        |style: Style, x: Double| -> String {
            let v = f64::from_bits(x.bits);
            match style {
                Style::Shortest => format!("{v}"),
                Style::TwoPlaces => format!("{v:.2}"),
                Style::FourPlaces => format!("{v:.4}"),
            }
        },
    )
}

#[allow(dead_code)]
fn d(x: f64) -> Double {
    Double::from_bits(x.to_bits())
}

#[allow(dead_code)]
fn f(x: Double) -> f64 {
    f64::from_bits(x.bits)
}

fn event(
    reference_price: f64,
    current_price: f64,
    seconds_remaining: f64,
    recent_prices: Vec<f64>,
    tick_interval_secs: f64,
) -> RawEvent {
    RawEvent {
        source: "binance-btc".into(),
        kind: AlphaEventKind::ReferenceAsset,
        publish_ts: None,
        receive_ts: Timestamp::from_nanos(0),
        payload: Payload {
            reference_distance: Some(ReferenceDistancePayload {
                contract: "crypto.updown.btc.gt.0.2026-08-12t12-05-00z.binance".into(),
                reference_price: d(reference_price),
                current_price: d(current_price),
                seconds_remaining: d(seconds_remaining),
                recent_prices: recent_prices.into_iter().map(d).collect(),
                tick_interval_secs: d(tick_interval_secs),
            }),
            ..Payload::unknown()
        },
    }
}

#[test]
fn at_the_reference_price_with_no_momentum_probability_is_a_coin_flip() {
    let src = ReferenceDistanceSource::new("btc-barrier");
    let flat = vec![65000.0, 65000.0, 65000.0, 65000.0];
    let est = src
        .on_event(&c(), &event(65000.0, 65000.0, 120.0, flat, 5.0))
        .unwrap();
    assert!((f(est.probability) - 0.5).abs() < 1e-9);
}

#[test]
fn same_distance_closer_to_expiry_is_more_confident_up() {
    let src = ReferenceDistanceSource::new("btc-barrier");
    let oscillating = vec![65100.0, 65105.0, 65095.0, 65100.0, 65100.0];
    let far = src
        .on_event(&c(), &event(65000.0, 65100.0, 300.0, oscillating.clone(), 5.0))
        .unwrap();
    let near = src
        .on_event(&c(), &event(65000.0, 65100.0, 15.0, oscillating, 5.0))
        .unwrap();
    assert!(
        f(near.probability) > f(far.probability),
        "near={} far={}",
        f(near.probability),
        f(far.probability)
    );
    assert!(
        f(near.probability) > 0.9,
        "expected near-certainty with little time left, got {}",
        f(near.probability)
    );
}

#[test]
fn strong_enough_momentum_can_make_more_time_left_more_confident_not_less() {
    let src = ReferenceDistanceSource::new("btc-barrier");
    let trending = vec![65000.0, 65010.0, 65020.0, 65030.0, 65100.0];
    let shorter = src
        .on_event(&c(), &event(65000.0, 65100.0, 15.0, trending.clone(), 5.0))
        .unwrap();
    let longer = src
        .on_event(&c(), &event(65000.0, 65100.0, 300.0, trending, 5.0))
        .unwrap();
    assert!(
        f(longer.probability) > f(shorter.probability),
        "longer={} shorter={}",
        f(longer.probability),
        f(shorter.probability)
    );
}

#[test]
fn more_price_samples_produce_a_tighter_estimate() {
    let src = ReferenceDistanceSource::new("btc-barrier");
    let short_history = vec![65000.0, 65020.0, 65010.0];
    let mut long_history = Vec::new();
    for _ in 0..15 {
        long_history.extend_from_slice(&[65000.0, 65020.0, 65010.0]);
    }
    let short_est = src
        .on_event(&c(), &event(65000.0, 65015.0, 120.0, short_history, 5.0))
        .unwrap();
    let long_est = src
        .on_event(&c(), &event(65000.0, 65015.0, 120.0, long_history, 5.0))
        .unwrap();
    assert!(
        f(long_est.std_dev) < f(short_est.std_dev),
        "long={} short={}",
        f(long_est.std_dev),
        f(short_est.std_dev)
    );
}

#[test]
fn below_reference_price_implies_probability_under_half() {
    let src = ReferenceDistanceSource::new("btc-barrier");
    let flat = vec![65000.0, 64990.0, 64980.0, 64950.0];
    let est = src
        .on_event(&c(), &event(65000.0, 64950.0, 120.0, flat, 5.0))
        .unwrap();
    assert!(f(est.probability) < 0.5);
}

#[test]
fn reference_distance_irrelevant_event_kind_yields_no_opinion() {
    let src = ReferenceDistanceSource::new("btc-barrier");
    let mut ev = event(65000.0, 65100.0, 120.0, vec![1.0, 2.0], 5.0);
    ev.kind = AlphaEventKind::Weather;
    assert!(src.on_event(&c(), &ev).is_none());
}
