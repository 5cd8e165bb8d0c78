use parallax::alpha::source::AlphaSource;
use parallax::alpha::config::WeatherConfig;
use parallax::alpha::payload::{Payload, WeatherPayload};
use parallax::alpha::sources::weather::WeatherEnsembleSource;
use parallax::double::{Arithmetic, Double, Op, Style};
use parallax::types::alpha::{AlphaEventKind, RawEvent};
use parallax::types::time::Timestamp;

#[allow(dead_code)]
fn c() -> Arithmetic {
    Arithmetic::new(
        |op: Op, a: u64, b: u64| -> u64 {
            let x = f64::from_bits(a);
            let y = f64::from_bits(b);
            match op {
                Op::Sum => (x + y).to_bits(),
                Op::Difference => (x - y).to_bits(),
                Op::Product => (x * y).to_bits(),
                Op::Quotient => (x / y).to_bits(),
                Op::SquareRoot => x.sqrt().to_bits(),
                Op::Exponential => x.exp().to_bits(),
                Op::Logarithm => x.ln().to_bits(),
                Op::HyperbolicTangent => x.tanh().to_bits(),
                Op::Power => x.powf(y).to_bits(),
                Op::IntegerPower => x.powi(b as i32).to_bits(),
                Op::Floor => x.floor().to_bits(),
                Op::Ceiling => x.ceil().to_bits(),
                Op::OfCount => (a as f64).to_bits(),
                Op::ToIndex => x as u64,
            }
        },
        |style: Style, x: Double| -> String {
            let v = f64::from_bits(x.bits);
            match style {
                Style::Shortest => format!("{v}"),
                Style::TwoPlaces => format!("{v:.2}"),
                Style::FourPlaces => format!("{v:.4}"),
            }
        },
    )
}

#[allow(dead_code)]
fn d(x: f64) -> Double {
    Double::from_bits(x.to_bits())
}

#[allow(dead_code)]
fn f(x: Double) -> f64 {
    f64::from_bits(x.bits)
}

fn event(direction: &str, threshold: i64, forecasts: Vec<i64>) -> RawEvent {
    RawEvent {
        source: "hrrr-ensemble".into(),
        kind: AlphaEventKind::Weather,
        publish_ts: None,
        receive_ts: Timestamp::from_nanos(0),
        payload: Payload {
            weather: Some(WeatherPayload {
                contract: "wx.temp.chicago.gt_869.2026-08-12.nws_official".into(),
                threshold_tenths: threshold,
                direction: Some(direction.into()),
                upper_tenths: None,
                ensemble_forecast_tenths: forecasts,
            }),
            ..Payload::unknown()
        },
    }
}

#[test]
fn unanimous_ensemble_is_confident_but_not_exactly_certain() {
    let src = WeatherEnsembleSource::new("hrrr");
    let est = src
        .on_event(&c(), &event("gt", 869, vec![900, 910, 895, 905, 890]))
        .unwrap();
    assert!(f(est.probability) > 0.9, "probability was {}", f(est.probability));
    assert!(
        f(est.probability) < 1.0,
        "a 5-member unanimous ensemble must not report exact certainty, got {}",
        f(est.probability)
    );
}

#[test]
fn split_ensemble_is_uncertain() {
    let src = WeatherEnsembleSource::new("hrrr");
    let est = src
        .on_event(&c(), &event("gt", 869, vec![900, 850, 895, 840, 860]))
        .unwrap();
    assert!(f(est.probability) > 0.0 && f(est.probability) < 1.0);
    assert!(f(est.std_dev) > 0.15, "std_dev was {}", f(est.std_dev));
}

#[test]
fn weather_irrelevant_event_kind_yields_no_opinion() {
    let src = WeatherEnsembleSource::new("hrrr");
    let mut ev = event("gt", 869, vec![900]);
    ev.kind = AlphaEventKind::NewsHeadline;
    assert!(src.on_event(&c(), &ev).is_none());
}

#[test]
fn less_than_direction_is_priced_correctly_not_backwards() {
    let src = WeatherEnsembleSource::new("hrrr");
    let est = src
        .on_event(&c(), &event("lt", 869, vec![800, 810, 795, 805, 790]))
        .unwrap();
    assert!(f(est.probability) > 0.8, "probability was {}", f(est.probability));
}

#[test]
fn between_direction_uses_both_bounds() {
    let mut ev = event("between", 800, vec![850, 850, 850, 750, 950]);
    ev.payload.weather.as_mut().unwrap().upper_tenths = Some(900);
    let src = WeatherEnsembleSource::new("hrrr");
    let est = src.on_event(&c(), &ev).unwrap();
    assert!(
        (f(est.probability) - 0.6).abs() < 0.15,
        "probability was {}",
        f(est.probability)
    );
}

#[test]
fn missing_direction_falls_back_to_the_contract_ids_own_direction() {
    let mut ev = event("gt", 869, vec![900, 910, 895]);
    ev.payload.weather.as_mut().unwrap().direction = None;
    let src = WeatherEnsembleSource::new("hrrr");
    let est = src.on_event(&c(), &ev).unwrap();
    assert!(f(est.probability) > 0.5);
}

#[test]
fn no_direction_available_anywhere_yields_silence_not_a_guess() {
    let mut ev = event("gt", 869, vec![900]);
    ev.payload.weather.as_mut().unwrap().contract = "not-a-well-formed-id".into();
    ev.payload.weather.as_mut().unwrap().direction = None;
    let src = WeatherEnsembleSource::new("hrrr");
    assert!(src.on_event(&c(), &ev).is_none());
}

#[test]
fn weather_correlation_group_is_attached_when_configured() {
    let src = WeatherEnsembleSource::new("hrrr").with_correlation_group("nwp-ensemble");
    let est = src.on_event(&c(), &event("gt", 869, vec![900])).unwrap();
    assert_eq!(est.correlation_group.as_deref(), Some("nwp-ensemble"));
}

#[test]
fn from_config_applies_the_offline_fitted_std_dev_floor() {
    let config = WeatherConfig { min_std_dev: d(0.5) };
    let src = WeatherEnsembleSource::from_config("hrrr", &config);
    let forecasts: Vec<i64> = (0..50).map(|_| 900).collect();
    let est = src.on_event(&c(), &event("gt", 869, forecasts)).unwrap();
    assert!(f(est.std_dev) >= 0.5, "std_dev was {}", f(est.std_dev));
}
