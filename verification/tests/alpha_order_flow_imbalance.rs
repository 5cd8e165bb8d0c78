use parallax::alpha::source::AlphaSource;
use parallax::alpha::payload::{OrderFlowPayload, Payload};
use parallax::alpha::sources::order_flow_imbalance::OrderFlowImbalanceSource;
use parallax::double::{Arithmetic, Double, Op, Style};
use parallax::types::alpha::{AlphaEventKind, RawEvent};
use parallax::types::time::Timestamp;

#[allow(dead_code)]
fn c() -> Arithmetic {
    Arithmetic::new(
        |op: Op, a: u64, b: u64| -> u64 {
            let x = f64::from_bits(a);
            let y = f64::from_bits(b);
            match op {
                Op::Sum => (x + y).to_bits(),
                Op::Difference => (x - y).to_bits(),
                Op::Product => (x * y).to_bits(),
                Op::Quotient => (x / y).to_bits(),
                Op::SquareRoot => x.sqrt().to_bits(),
                Op::Exponential => x.exp().to_bits(),
                Op::Logarithm => x.ln().to_bits(),
                Op::HyperbolicTangent => x.tanh().to_bits(),
                Op::Power => x.powf(y).to_bits(),
                Op::IntegerPower => x.powi(b as i32).to_bits(),
                Op::Floor => x.floor().to_bits(),
                Op::Ceiling => x.ceil().to_bits(),
                Op::OfCount => (a as f64).to_bits(),
                Op::ToIndex => x as u64,
            }
        },
        |style: Style, x: Double| -> String {
            let v = f64::from_bits(x.bits);
            match style {
                Style::Shortest => format!("{v}"),
                Style::TwoPlaces => format!("{v:.2}"),
                Style::FourPlaces => format!("{v:.4}"),
            }
        },
    )
}

#[allow(dead_code)]
fn d(x: f64) -> Double {
    Double::from_bits(x.to_bits())
}

#[allow(dead_code)]
fn f(x: Double) -> f64 {
    f64::from_bits(x.bits)
}

fn event(bid_size: f64, ask_size: f64) -> RawEvent {
    RawEvent {
        source: "binance-btc-book".into(),
        kind: AlphaEventKind::ReferenceAsset,
        publish_ts: None,
        receive_ts: Timestamp::from_nanos(0),
        payload: Payload {
            order_flow: Some(OrderFlowPayload {
                contract: "crypto.updown.btc.gt.0.2026-08-12t12-05-00z.binance".into(),
                bid_size: d(bid_size),
                ask_size: d(ask_size),
            }),
            ..Payload::unknown()
        },
    }
}

#[test]
fn heavier_resting_bids_than_asks_shift_probability_up() {
    let src = OrderFlowImbalanceSource::new("ofi");
    let est = src.on_event(&c(), &event(300.0, 100.0)).unwrap();
    assert!(f(est.probability) > 0.5);
}

#[test]
fn heavier_resting_asks_than_bids_shift_probability_down() {
    let src = OrderFlowImbalanceSource::new("ofi");
    let est = src.on_event(&c(), &event(100.0, 300.0)).unwrap();
    assert!(f(est.probability) < 0.5);
}

#[test]
fn balanced_book_is_a_coin_flip() {
    let src = OrderFlowImbalanceSource::new("ofi");
    let est = src.on_event(&c(), &event(150.0, 150.0)).unwrap();
    assert!((f(est.probability) - 0.5).abs() < 1e-9);
}

#[test]
fn too_thin_a_book_is_silently_ignored_not_a_noisy_guess() {
    let src = OrderFlowImbalanceSource::new("ofi");
    assert!(src.on_event(&c(), &event(0.2, 0.1)).is_none());
}

#[test]
fn order_flow_imbalance_irrelevant_event_kind_yields_no_opinion() {
    let src = OrderFlowImbalanceSource::new("ofi");
    let mut ev = event(300.0, 100.0);
    ev.kind = AlphaEventKind::Oracle;
    assert!(src.on_event(&c(), &ev).is_none());
}
