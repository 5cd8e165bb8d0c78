use parallax::alpha::source::AlphaSource;
use parallax::alpha::config::NewsConfig;
use parallax::alpha::payload::{NewsPayload, Payload};
use parallax::alpha::sources::news::NewsSentimentSource;
use parallax::double::{Arithmetic, Double, Op, Style};
use parallax::types::alpha::{AlphaEventKind, EstimateKind, RawEvent};
use parallax::types::time::Timestamp;

#[allow(dead_code)]
fn c() -> Arithmetic {
    Arithmetic::new(
        |op: Op, a: u64, b: u64| -> u64 {
            let x = f64::from_bits(a);
            let y = f64::from_bits(b);
            match op {
                Op::Sum => (x + y).to_bits(),
                Op::Difference => (x - y).to_bits(),
                Op::Product => (x * y).to_bits(),
                Op::Quotient => (x / y).to_bits(),
                Op::SquareRoot => x.sqrt().to_bits(),
                Op::Exponential => x.exp().to_bits(),
                Op::Logarithm => x.ln().to_bits(),
                Op::HyperbolicTangent => x.tanh().to_bits(),
                Op::Power => x.powf(y).to_bits(),
                Op::IntegerPower => x.powi(b as i32).to_bits(),
                Op::Floor => x.floor().to_bits(),
                Op::Ceiling => x.ceil().to_bits(),
                Op::OfCount => (a as f64).to_bits(),
                Op::ToIndex => x as u64,
            }
        },
        |style: Style, x: Double| -> String {
            let v = f64::from_bits(x.bits);
            match style {
                Style::Shortest => format!("{v}"),
                Style::TwoPlaces => format!("{v:.2}"),
                Style::FourPlaces => format!("{v:.4}"),
            }
        },
    )
}

#[allow(dead_code)]
fn d(x: f64) -> Double {
    Double::from_bits(x.to_bits())
}

#[allow(dead_code)]
fn f(x: Double) -> f64 {
    f64::from_bits(x.bits)
}

fn event(polarity: f64, relevance: f64) -> RawEvent {
    RawEvent {
        source: "wire".into(),
        kind: AlphaEventKind::NewsHeadline,
        publish_ts: None,
        receive_ts: Timestamp::from_nanos(0),
        payload: Payload {
            news: Some(NewsPayload {
                contract: "econ.cpi_yoy.us.gt_30.2026-08-13.bls".into(),
                polarity: d(polarity),
                relevance: d(relevance),
            }),
            ..Payload::unknown()
        },
    }
}

#[test]
fn strongly_relevant_bullish_headline_is_a_positive_log_odds_shift() {
    let src = NewsSentimentSource::new("wire-nlp");
    let est = src.on_event(&c(), &event(0.9, 0.9)).unwrap();
    assert_eq!(est.kind, EstimateKind::LogOddsShift);
    assert!(f(est.probability) > 0.0, "shift was {}", f(est.probability));
}

#[test]
fn bearish_headline_is_a_negative_shift() {
    let src = NewsSentimentSource::new("wire-nlp");
    let est = src.on_event(&c(), &event(-0.9, 0.9)).unwrap();
    assert!(f(est.probability) < 0.0, "shift was {}", f(est.probability));
}

#[test]
fn zero_polarity_is_a_true_no_op_shift() {
    let src = NewsSentimentSource::new("wire-nlp");
    let est = src.on_event(&c(), &event(0.0, 0.9)).unwrap();
    assert!(f(est.probability).abs() < 1e-9);
}

#[test]
fn irrelevant_headline_is_silently_ignored() {
    let src = NewsSentimentSource::new("wire-nlp");
    assert!(src.on_event(&c(), &event(0.9, 0.02)).is_none());
}

#[test]
fn low_relevance_headline_has_wide_uncertainty() {
    let src = NewsSentimentSource::new("wire-nlp");
    let low = src.on_event(&c(), &event(0.5, 0.2)).unwrap();
    let high = src.on_event(&c(), &event(0.5, 0.95)).unwrap();
    assert!(f(low.std_dev) > f(high.std_dev));
}

#[test]
fn from_config_uses_the_offline_fitted_sensitivity() {
    let config = NewsConfig { sensitivity: d(0.1) };
    let src = NewsSentimentSource::from_config("wire-nlp", &config);
    let default_src = NewsSentimentSource::new("wire-nlp");
    let low_sensitivity = src.on_event(&c(), &event(0.9, 0.9)).unwrap();
    let default_sensitivity = default_src.on_event(&c(), &event(0.9, 0.9)).unwrap();
    assert!(f(low_sensitivity.probability).abs() < f(default_sensitivity.probability).abs());
}
