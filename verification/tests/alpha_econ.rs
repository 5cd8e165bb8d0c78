use parallax::alpha::source::AlphaSource;
use parallax::alpha::config::EconConfig;
use parallax::alpha::payload::{EconPayload, Payload};
use parallax::alpha::sources::econ::EconNowcastSource;
use parallax::keyed::TextMap;
use parallax::double::{Arithmetic, Double, Op, Style};
use parallax::types::alpha::{AlphaEventKind, RawEvent};
use parallax::types::time::Timestamp;

#[allow(dead_code)]
fn c() -> Arithmetic {
    Arithmetic::new(
        |op: Op, a: u64, b: u64| -> u64 {
            let x = f64::from_bits(a);
            let y = f64::from_bits(b);
            match op {
                Op::Sum => (x + y).to_bits(),
                Op::Difference => (x - y).to_bits(),
                Op::Product => (x * y).to_bits(),
                Op::Quotient => (x / y).to_bits(),
                Op::SquareRoot => x.sqrt().to_bits(),
                Op::Exponential => x.exp().to_bits(),
                Op::Logarithm => x.ln().to_bits(),
                Op::HyperbolicTangent => x.tanh().to_bits(),
                Op::Power => x.powf(y).to_bits(),
                Op::IntegerPower => x.powi(b as i32).to_bits(),
                Op::Floor => x.floor().to_bits(),
                Op::Ceiling => x.ceil().to_bits(),
                Op::OfCount => (a as f64).to_bits(),
                Op::ToIndex => x as u64,
            }
        },
        |style: Style, x: Double| -> String {
            let v = f64::from_bits(x.bits);
            match style {
                Style::Shortest => format!("{v}"),
                Style::TwoPlaces => format!("{v:.2}"),
                Style::FourPlaces => format!("{v:.4}"),
            }
        },
    )
}

#[allow(dead_code)]
fn d(x: f64) -> Double {
    Double::from_bits(x.to_bits())
}

#[allow(dead_code)]
fn f(x: Double) -> f64 {
    f64::from_bits(x.bits)
}

fn payload_event(consensus: f64, actual: Option<f64>) -> RawEvent {
    RawEvent {
        source: "bls-cpi".into(),
        kind: AlphaEventKind::EconRelease,
        publish_ts: None,
        receive_ts: Timestamp::from_nanos(0),
        payload: release(
            "econ.cpi_yoy.us.gt_30.2026-08-13.bls",
            3.0,
            consensus,
            0.2,
            actual,
            0.02,
        ),
    }
}

fn release(
    contract: &str,
    threshold: f64,
    consensus: f64,
    surprise_std: f64,
    actual: Option<f64>,
    post_release_std: f64,
) -> Payload {
    Payload {
        econ: Some(EconPayload {
            contract: contract.into(),
            series: None,
            threshold: d(threshold),
            consensus: d(consensus),
            surprise_std: d(surprise_std),
            actual: actual.map(d),
            post_release_std: d(post_release_std),
        }),
        ..Payload::unknown()
    }
}

#[test]
fn consensus_well_above_threshold_implies_high_probability() {
    let src = EconNowcastSource::new("bls-nowcast");
    let est = src.on_event(&c(), &payload_event(3.5, None)).unwrap();
    assert!(f(est.probability) > 0.9, "probability was {}", f(est.probability));
}

#[test]
fn actual_release_sharply_tightens_uncertainty() {
    let src = EconNowcastSource::new("bls-nowcast");
    let pre = src.on_event(&c(), &payload_event(3.1, None)).unwrap();
    let post = src.on_event(&c(), &payload_event(3.1, Some(3.4))).unwrap();
    assert!(f(post.std_dev) < f(pre.std_dev));
}

#[test]
fn reported_confidence_is_unchanged_by_rescaling_the_whole_series() {
    let src = EconNowcastSource::new("bls-nowcast");
    let base = RawEvent {
        source: "bls-cpi".into(),
        kind: AlphaEventKind::EconRelease,
        publish_ts: None,
        receive_ts: Timestamp::from_nanos(0),
        payload: release(
            "econ.payrolls.us.gt_200.2026-08-13.bls",
            200.0,
            210.0,
            40.0,
            None,
            5.0,
        ),
    };
    let scaled = RawEvent {
        source: "bls-cpi".into(),
        kind: AlphaEventKind::EconRelease,
        publish_ts: None,
        receive_ts: Timestamp::from_nanos(0),
        payload: release(
            "econ.payrolls.us.gt_200.2026-08-13.bls",
            200_000.0,
            210_000.0,
            40_000.0,
            None,
            5_000.0,
        ),
    };

    let base_est = src.on_event(&c(), &base).unwrap();
    let scaled_est = src.on_event(&c(), &scaled).unwrap();
    assert!(
        (f(base_est.std_dev) - f(scaled_est.std_dev)).abs() < 1e-9,
        "base={} scaled={}",
        f(base_est.std_dev),
        f(scaled_est.std_dev)
    );
    assert!((f(base_est.probability) - f(scaled_est.probability)).abs() < 1e-9);
}

#[test]
fn confidence_is_highest_when_consensus_sits_on_the_threshold() {
    let src = EconNowcastSource::new("bls-nowcast");
    let on_threshold = src.on_event(&c(), &payload_event(3.0, None)).unwrap();
    let far_above = src.on_event(&c(), &payload_event(4.0, None)).unwrap();
    assert!(f(on_threshold.std_dev) > f(far_above.std_dev));
}

#[test]
fn an_offline_fitted_surprise_std_overrides_the_live_payloads_own_value() {
    let mut by_series = TextMap::new();
    by_series.insert("econ.cpi_yoy.us.gt_30.2026-08-13.bls".to_string(), d(2.0));
    let config = EconConfig {
        surprise_std_by_series: by_series,
    };
    let src = EconNowcastSource::from_config("bls-nowcast", &config);
    let default_src = EconNowcastSource::new("bls-nowcast");

    let overridden = src.on_event(&c(), &payload_event(3.1, None)).unwrap();
    let baseline = default_src.on_event(&c(), &payload_event(3.1, None)).unwrap();
    assert!(
        f(overridden.std_dev) != f(baseline.std_dev),
        "an offline override must actually change the emitted estimate"
    );
}
