use parallax::alpha::source::AlphaSource;
use parallax::alpha::payload::{CorrelatedAssetPayload, Payload};
use parallax::alpha::sources::correlated_asset::{estimate_beta, CorrelatedAssetSource};
use parallax::double::{Arithmetic, Double, Op, Style};
use parallax::types::alpha::{AlphaEventKind, RawEvent};
use parallax::types::time::Timestamp;

#[allow(dead_code)]
fn c() -> Arithmetic {
    Arithmetic::new(
        |op: Op, a: u64, b: u64| -> u64 {
            let x = f64::from_bits(a);
            let y = f64::from_bits(b);
            match op {
                Op::Sum => (x + y).to_bits(),
                Op::Difference => (x - y).to_bits(),
                Op::Product => (x * y).to_bits(),
                Op::Quotient => (x / y).to_bits(),
                Op::SquareRoot => x.sqrt().to_bits(),
                Op::Exponential => x.exp().to_bits(),
                Op::Logarithm => x.ln().to_bits(),
                Op::HyperbolicTangent => x.tanh().to_bits(),
                Op::Power => x.powf(y).to_bits(),
                Op::IntegerPower => x.powi(b as i32).to_bits(),
                Op::Floor => x.floor().to_bits(),
                Op::Ceiling => x.ceil().to_bits(),
                Op::OfCount => (a as f64).to_bits(),
                Op::ToIndex => x as u64,
            }
        },
        |style: Style, x: Double| -> String {
            let v = f64::from_bits(x.bits);
            match style {
                Style::Shortest => format!("{v}"),
                Style::TwoPlaces => format!("{v:.2}"),
                Style::FourPlaces => format!("{v:.4}"),
            }
        },
    )
}

#[allow(dead_code)]
fn d(x: f64) -> Double {
    Double::from_bits(x.to_bits())
}

#[allow(dead_code)]
fn f(x: Double) -> f64 {
    f64::from_bits(x.bits)
}

fn event(
    correlated_returns: Vec<f64>,
    driver_returns: Vec<f64>,
    current_correlated_return: f64,
    current_driver_return: f64,
) -> RawEvent {
    RawEvent {
        source: "eth-vs-btc".into(),
        kind: AlphaEventKind::ReferenceAsset,
        publish_ts: None,
        receive_ts: Timestamp::from_nanos(0),
        payload: Payload {
            correlated_asset: Some(CorrelatedAssetPayload {
                contract: "crypto.updown.btc.gt.0.2026-08-12t12-05-00z.binance".into(),
                correlated_returns: correlated_returns.into_iter().map(d).collect(),
                driver_returns: driver_returns.into_iter().map(d).collect(),
                current_correlated_return: d(current_correlated_return),
                current_driver_return: d(current_driver_return),
            }),
            ..Payload::unknown()
        },
    }
}

#[test]
fn estimate_beta_recovers_a_known_linear_relationship() {
    let x: Vec<f64> = vec![0.01, -0.02, 0.03, -0.01, 0.02];
    let y: Vec<f64> = x.iter().map(|xi| 2.0 * xi).collect();
    let x: Vec<Double> = x.into_iter().map(d).collect();
    let y: Vec<Double> = y.into_iter().map(d).collect();
    let beta = estimate_beta(&c(), &x, &y).unwrap();
    assert!((f(beta) - 2.0).abs() < 1e-9);
}

#[test]
fn estimate_beta_is_none_when_driver_has_no_variance() {
    let x: Vec<Double> = vec![d(0.0), d(0.0), d(0.0)];
    let y: Vec<Double> = vec![d(0.01), d(0.02), d(-0.01)];
    assert!(estimate_beta(&c(), &x, &y).is_none());
}

#[test]
fn a_move_fully_explained_by_the_driver_contributes_nothing() {
    let driver: Vec<f64> = vec![0.01, -0.02, 0.03, -0.01, 0.02];
    let correlated: Vec<f64> = driver.iter().map(|x| 1.5 * x).collect();
    let src = CorrelatedAssetSource::new("eth-residual");
    let est = src
        .on_event(&c(), &event(correlated, driver, 1.5 * 0.015, 0.015))
        .unwrap();
    assert!(
        (f(est.probability) - 0.5).abs() < 1e-6,
        "probability was {}",
        f(est.probability)
    );
}

#[test]
fn a_move_beyond_what_the_driver_explains_shifts_probability_up() {
    let driver: Vec<f64> = vec![0.01, -0.02, 0.03, -0.01, 0.02];
    let correlated: Vec<f64> = driver.iter().map(|x| 1.0 * x).collect();
    let src = CorrelatedAssetSource::new("eth-residual");
    let est = src
        .on_event(&c(), &event(correlated, driver, 0.05, 0.01))
        .unwrap();
    assert!(f(est.probability) > 0.5, "probability was {}", f(est.probability));
}

#[test]
fn mismatched_length_arrays_yield_no_opinion() {
    let src = CorrelatedAssetSource::new("eth-residual");
    assert!(src
        .on_event(&c(), &event(vec![0.01, 0.02], vec![0.01], 0.0, 0.0))
        .is_none());
}

#[test]
fn correlated_asset_irrelevant_event_kind_yields_no_opinion() {
    let src = CorrelatedAssetSource::new("eth-residual");
    let mut ev = event(vec![0.01, 0.02], vec![0.01, 0.02], 0.0, 0.0);
    ev.kind = AlphaEventKind::Weather;
    assert!(src.on_event(&c(), &ev).is_none());
}
