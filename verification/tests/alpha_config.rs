use parallax::alpha::config::{
    AlphaConfig, ConfigError, EconConfig, NewsConfig, TennisConfig, WeatherConfig,
};
use parallax::keyed::TextMap;
use parallax::double::{Arithmetic, Double, Op, Style};

#[allow(dead_code)]
fn c() -> Arithmetic {
    Arithmetic::new(
        |op: Op, a: u64, b: u64| -> u64 {
            let x = f64::from_bits(a);
            let y = f64::from_bits(b);
            match op {
                Op::Sum => (x + y).to_bits(),
                Op::Difference => (x - y).to_bits(),
                Op::Product => (x * y).to_bits(),
                Op::Quotient => (x / y).to_bits(),
                Op::SquareRoot => x.sqrt().to_bits(),
                Op::Exponential => x.exp().to_bits(),
                Op::Logarithm => x.ln().to_bits(),
                Op::HyperbolicTangent => x.tanh().to_bits(),
                Op::Power => x.powf(y).to_bits(),
                Op::IntegerPower => x.powi(b as i32).to_bits(),
                Op::Floor => x.floor().to_bits(),
                Op::Ceiling => x.ceil().to_bits(),
                Op::OfCount => (a as f64).to_bits(),
                Op::ToIndex => x as u64,
            }
        },
        |style: Style, x: Double| -> String {
            let v = f64::from_bits(x.bits);
            match style {
                Style::Shortest => format!("{v}"),
                Style::TwoPlaces => format!("{v:.2}"),
                Style::FourPlaces => format!("{v:.4}"),
            }
        },
    )
}

#[allow(dead_code)]
fn d(x: f64) -> Double {
    Double::from_bits(x.to_bits())
}

#[allow(dead_code)]
fn f(x: Double) -> f64 {
    f64::from_bits(x.bits)
}

fn number(v: &serde_json::Value, group: &str, name: &str) -> Result<Double, String> {
    v.get(group)
        .and_then(|g| g.get(name))
        .and_then(|n| n.as_f64())
        .map(d)
        .ok_or(format!("missing field `{group}.{name}`"))
}

fn read(text: &str) -> Result<AlphaConfig, String> {
    let v: serde_json::Value = serde_json::from_str(text).map_err(|e| e.to_string())?;
    let mut surprise_std_by_series = TextMap::new();
    let series = v
        .get("econ")
        .and_then(|e| e.get("surprise_std_by_series"))
        .and_then(|s| s.as_object())
        .ok_or("missing field `econ.surprise_std_by_series`".to_string())?;
    for (name, std) in series {
        surprise_std_by_series.insert(name.clone(), d(std.as_f64().ok_or("not a number".to_string())?));
    }
    Ok(AlphaConfig {
        weather: WeatherConfig {
            min_std_dev: number(&v, "weather", "min_std_dev")?,
        },
        econ: EconConfig {
            surprise_std_by_series,
        },
        news: NewsConfig {
            sensitivity: number(&v, "news", "sensitivity")?,
        },
    })
}

fn from_json(text: &str) -> Result<AlphaConfig, ConfigError> {
    AlphaConfig::from_parsed(&c(), read(text))
}

fn exported_json() -> &'static str {
    r#"{
        "weather": {"min_std_dev": 0.015},
        "econ": {"surprise_std_by_series": {"cpi_yoy": 0.2, "nfp": 45000.0}},
        "news": {"sensitivity": 0.35}
    }"#
}

#[test]
fn parses_the_exporters_exact_json_shape() {
    let config = from_json(exported_json()).unwrap();
    assert_eq!(f(config.weather.min_std_dev), 0.015);
    assert_eq!(
        config.econ.surprise_std_by_series.get("nfp"),
        Some(&d(45000.0))
    );
    assert_eq!(f(config.news.sensitivity), 0.35);
}

#[test]
fn rejects_a_zero_min_std_dev_that_would_silently_overclaim_confidence() {
    let bad = r#"{
        "weather": {"min_std_dev": 0.0},
        "econ": {"surprise_std_by_series": {}},
        "news": {"sensitivity": 0.35}
    }"#;
    assert!(from_json(bad).is_err());
}

#[test]
fn rejects_a_negative_series_surprise_std() {
    let bad = r#"{
        "weather": {"min_std_dev": 0.01},
        "econ": {"surprise_std_by_series": {"cpi_yoy": -0.2}},
        "news": {"sensitivity": 0.35}
    }"#;
    assert!(from_json(bad).is_err());
}

#[test]
fn malformed_json_is_a_clear_error_not_a_panic() {
    assert!(from_json("not json").is_err());
}

#[test]
fn the_exporters_json_still_parses_without_a_tennis_field() {
    assert!(from_json(exported_json()).is_ok());
}

#[test]
fn tennis_defaults_validate() {
    assert!(TennisConfig::default().validate(&c()).is_ok());
}

#[test]
fn tennis_rejects_a_serve_point_win_at_either_edge() {
    for bad in [0.0, 1.0, -0.1, 1.1, f64::NAN] {
        let config = TennisConfig {
            serve_point_win: d(bad),
            ..TennisConfig::default()
        };
        assert!(
            config.validate(&c()).is_err(),
            "serve_point_win {bad} must be rejected"
        );
    }
}

#[test]
fn tennis_rejects_a_zero_min_std_dev_that_would_silently_overclaim_confidence() {
    let config = TennisConfig {
        min_std_dev: d(0.0),
        ..TennisConfig::default()
    };
    assert!(config.validate(&c()).is_err());
}

#[test]
fn what_could_not_be_parsed_is_reported_as_such() {
    let error = from_json("not json").unwrap_err();
    assert!(matches!(error, ConfigError::Parse(_)));
    assert!(error.to_text().starts_with("failed to parse config JSON: "));
    assert_eq!(
        ConfigError::Io("no such file".to_string()).to_text(),
        "failed to read config file: no such file"
    );
}

#[test]
fn an_invalid_constant_is_named_with_its_value() {
    let error = from_json(
        r#"{
        "weather": {"min_std_dev": 0.01},
        "econ": {"surprise_std_by_series": {"cpi_yoy": -0.2}},
        "news": {"sensitivity": 0.35}
    }"#,
    )
    .unwrap_err();
    assert_eq!(
        error.to_text(),
        "invalid config: econ.surprise_std_by_series[cpi_yoy] must be positive and finite, got -0.2"
    );
}
