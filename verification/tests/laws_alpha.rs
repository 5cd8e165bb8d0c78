use parallax::double::{Arithmetic, Double, Op, Style};
use parallax::alpha::aggregator::{
    aggregate, try_aggregate, AggregateError, AggregatorConfig,
};
use parallax::alpha::config::{
    AlphaConfig, ConfigError, EconConfig, NewsConfig, TennisConfig, WeatherConfig,
};
use parallax::alpha::sources::econ::EconNowcastSource;
use parallax::alpha::payload::{
    EconPayload, NewsPayload, OraclePayload, Payload, ReferenceDistancePayload, TennisPayload,
    WeatherPayload,
};
use parallax::alpha::source::AlphaSource;
use parallax::alpha::sources::news::NewsSentimentSource;
use parallax::alpha::sources::oracle::OracleResolutionSource;
use parallax::alpha::sources::reference_distance::ReferenceDistanceSource;
use parallax::alpha::sources::tennis::{TennisFeedHealth, TennisMatchStateSource};
use parallax::alpha::sources::weather::{resolve_direction, WeatherEnsembleSource};
use parallax::alpha::stats::{beta_binomial_posterior, clamp_probability};
use parallax::alpha::forecast_quality::ForecastQualityTracker;
use parallax::keyed::TextMap;
use parallax::types::alpha::{
    AlphaEventKind, EstimateKind, ProbabilityEstimate, RawEvent, StalenessPolicy,
};
use parallax::types::contract::{CanonicalContractId, Direction};
use parallax::types::time::Timestamp;

#[allow(dead_code)]
fn c() -> Arithmetic {
    Arithmetic::new(
        |op: Op, a: u64, b: u64| -> u64 {
            let x = f64::from_bits(a);
            let y = f64::from_bits(b);
            match op {
                Op::Sum => (x + y).to_bits(),
                Op::Difference => (x - y).to_bits(),
                Op::Product => (x * y).to_bits(),
                Op::Quotient => (x / y).to_bits(),
                Op::SquareRoot => x.sqrt().to_bits(),
                Op::Exponential => x.exp().to_bits(),
                Op::Logarithm => x.ln().to_bits(),
                Op::HyperbolicTangent => x.tanh().to_bits(),
                Op::Power => x.powf(y).to_bits(),
                Op::IntegerPower => x.powi(b as i32).to_bits(),
                Op::Floor => x.floor().to_bits(),
                Op::Ceiling => x.ceil().to_bits(),
                Op::OfCount => (a as f64).to_bits(),
                Op::ToIndex => x as u64,
            }
        },
        |style: Style, x: Double| -> String {
            let v = f64::from_bits(x.bits);
            match style {
                Style::Shortest => format!("{v}"),
                Style::TwoPlaces => format!("{v:.2}"),
                Style::FourPlaces => format!("{v:.4}"),
            }
        },
    )
}

#[allow(dead_code)]
fn d(x: f64) -> Double {
    Double::from_bits(x.to_bits())
}

#[allow(dead_code)]
fn f(x: Double) -> f64 {
    f64::from_bits(x.bits)
}

fn event(kind: AlphaEventKind, payload: Payload) -> RawEvent {
    RawEvent {
        source: "s".into(),
        kind,
        publish_ts: None,
        receive_ts: Timestamp::from_nanos(10),
        payload,
    }
}

fn weather(direction: &str, forecasts: Vec<i64>) -> Payload {
    Payload {
        weather: Some(WeatherPayload {
            contract: "c".into(),
            threshold_tenths: 869,
            direction: Some(direction.into()),
            upper_tenths: None,
            ensemble_forecast_tenths: forecasts,
        }),
        ..Payload::unknown()
    }
}

fn estimate(source: &str, p: f64, std_dev: f64) -> ProbabilityEstimate {
    ProbabilityEstimate {
        source: source.into(),
        contract: CanonicalContractId("c".into()),
        probability: d(p),
        std_dev: d(std_dev),
        as_of: Timestamp::from_nanos(0),
        kind: EstimateKind::Absolute,
        staleness: StalenessPolicy::Decays,
        correlation_group: None,
    }
}

#[test]
fn a_unanimous_ensemble_is_not_certain() {
    let source = WeatherEnsembleSource::new("w");
    let all = event(AlphaEventKind::Weather, weather("gt", vec![900; 1000]));
    let p = f(source.on_event(&c(), &all).unwrap().probability);
    assert!(p < 1.0 && p > 0.99);
    let none = event(AlphaEventKind::Weather, weather("lt", vec![900; 1000]));
    let q = f(source.on_event(&c(), &none).unwrap().probability);
    assert!(q > 0.0 && q < 0.01);
}

#[test]
fn a_member_on_the_threshold_counts_for_neither_side() {
    let source = WeatherEnsembleSource::new("w");
    for direction in ["gt", "lt"] {
        let e = event(AlphaEventKind::Weather, weather(direction, vec![869]));
        // Beta(1/2, 3/2) has the mean 1/4.
        assert!((f(source.on_event(&c(), &e).unwrap().probability) - 0.25).abs() < 1e-12);
    }
}

#[test]
fn a_range_takes_the_bound_that_the_payload_leaves_out_from_the_id() {
    let mut payload = WeatherPayload {
        contract: "wx.temp.chicago.between_800_900.2026-08-12.nws_official".into(),
        threshold_tenths: 800,
        direction: Some("between".into()),
        upper_tenths: None,
        ensemble_forecast_tenths: vec![850],
    };
    assert_eq!(resolve_direction(&payload), Some(Direction::Between { upper: 900 }));
    payload.upper_tenths = Some(870);
    assert_eq!(resolve_direction(&payload), Some(Direction::Between { upper: 870 }));
    payload.upper_tenths = None;
    payload.contract = "wx.temp.chicago.gt_800.2026-08-12.nws_official".into();
    assert_eq!(resolve_direction(&payload), None);
}

fn release(contract: &str, threshold: f64) -> RawEvent {
    event(
        AlphaEventKind::EconRelease,
        Payload {
            econ: Some(EconPayload {
                contract: contract.into(),
                series: None,
                threshold: d(threshold),
                consensus: d(3.4),
                surprise_std: d(0.2),
                actual: None,
                post_release_std: d(0.05),
            }),
            ..Payload::unknown()
        },
    )
}

#[test]
fn a_release_is_priced_in_the_direction_of_its_contract() {
    let source = EconNowcastSource::new("n");
    let price = |id: &str, t: f64| {
        source.on_event(&c(), &release(id, t)).map(|e| f(e.probability))
    };
    let above = price("econ.cpi_yoy.us.gt_30.2026-08-13.bls", 3.0).unwrap();
    let below = price("econ.cpi_yoy.us.lt_30.2026-08-13.bls", 3.0).unwrap();
    assert!((above - 0.97725).abs() < 1e-3);
    assert!((below - 0.0228).abs() < 1e-3);
    // Between 3.0 and 3.6: two deviations below the consensus to one above it.
    let range = price("econ.cpi_yoy.us.between_30_36.2026-08-13.bls", 3.0).unwrap();
    assert!((range - 0.8186).abs() < 1e-3, "{range}");
    let unit = price("econ.cpi_yoy.us.between_300_360.2026-08-13.bls", 3.0).unwrap();
    assert!((range - unit).abs() < 1e-9);
    // A lower bound of zero in the id says nothing of the unit: the threshold alone is priced.
    let from_zero = price("econ.cpi_yoy.us.between_0_36.2026-08-13.bls", 3.0);
    assert_eq!(from_zero, Some(above));
    assert_eq!(price("no id", 3.0), Some(above));
}

#[test]
fn silence_is_the_answer_to_irrelevance() {
    let source = WeatherEnsembleSource::new("w");
    let stray = event(AlphaEventKind::Oracle, weather("gt", vec![900]));
    assert!(source.on_event(&c(), &stray).is_none());
    let unknown = event(AlphaEventKind::Weather, weather("up", vec![900]));
    assert!(source.on_event(&c(), &unknown).is_none());
    let empty = event(AlphaEventKind::Weather, weather("gt", vec![]));
    assert!(source.on_event(&c(), &empty).is_none());
    assert!(source.on_event(&c(), &event(AlphaEventKind::Weather, Payload::unknown())).is_none());
}

#[test]
fn a_headline_is_a_shift_that_ages() {
    let payload = Payload {
        news: Some(NewsPayload { contract: "c".into(), polarity: d(1.0), relevance: d(1.0) }),
        ..Payload::unknown()
    };
    let source = NewsSentimentSource::new("n");
    let e = source.on_event(&c(), &event(AlphaEventKind::NewsHeadline, payload)).unwrap();
    assert_eq!(e.kind, EstimateKind::LogOddsShift);
    assert_eq!(e.staleness, StalenessPolicy::Decays);
    assert!(f(e.probability) > 0.0);
}

#[test]
fn a_disputed_resolution_is_silent_and_a_final_one_lasts() {
    let source = OracleResolutionSource::new("o");
    let mut payload = OraclePayload {
        contract: "c".into(),
        resolved_yes: true,
        challenge_window_ends_ns: Some(10),
        disputed: true,
    };
    let read = |p: &OraclePayload| {
        let payload = Payload { oracle: Some(p.clone()), ..Payload::unknown() };
        source.on_event(&c(), &event(AlphaEventKind::Oracle, payload))
    };
    assert!(read(&payload).is_none());
    payload.disputed = false;
    assert_eq!(read(&payload).unwrap().staleness, StalenessPolicy::Permanent);
    payload.challenge_window_ends_ns = Some(11);
    let pending = read(&payload).unwrap();
    assert_eq!(pending.staleness, StalenessPolicy::Decays);
    assert_eq!(f(pending.probability), 0.85);
}

#[test]
fn a_score_that_cannot_be_read_is_silent() {
    let source = TennisMatchStateSource::new("t");
    let sound = TennisPayload {
        contract: "c".into(),
        sport: "tennis".into(),
        yes_side: 1,
        status: Some("live".into()),
        format: Some("BO3".into()),
        sets: vec![0, 0],
        games: vec![vec![0], vec![0]],
        points: None,
        server: Some(1),
        is_tiebreak: false,
    };
    let read = |p: TennisPayload| {
        let payload = Payload { tennis: Some(p), ..Payload::unknown() };
        source.on_event(&c(), &event(AlphaEventKind::SportsMatchState, payload))
    };
    // A fresh match between equals is a coin flip.
    let p = f(read(sound.clone()).unwrap().probability);
    assert!((p - 0.5).abs() < 1e-9, "{p}");
    assert!(read(TennisPayload { yes_side: 3, ..sound.clone() }).is_none());
    assert!(read(TennisPayload { server: None, ..sound.clone() }).is_none());
    assert!(read(TennisPayload { sport: "golf".into(), ..sound.clone() }).is_none());
    assert!(read(TennisPayload { status: Some("done".into()), ..sound.clone() }).is_none());
    assert!(read(TennisPayload { sets: vec![2, 0], ..sound.clone() }).is_none());
    let one_nil = f(read(TennisPayload { sets: vec![1, 0], ..sound }).unwrap().probability);
    assert!((one_nil - 0.75).abs() < 1e-9, "{one_nil}");
}

#[test]
fn the_feeds_of_two_matches_are_watched_apart() {
    let mut health = TennisFeedHealth::new(2);
    assert_eq!(health.record(1, false), None);
    assert_eq!(health.record(2, false), None);
    let alert = health.record(1, false).unwrap();
    assert_eq!((alert.match_id, alert.consecutive_failures), (1, 2));
    assert_eq!(health.record(1, true), None);
    assert_eq!(health.record(1, false), None);
    assert!(TennisFeedHealth::new(0).record(9, false).is_some());
}

#[test]
fn a_settled_estimate_does_not_age() {
    let contract = CanonicalContractId("c".into());
    let config = AggregatorConfig::default();
    let mut settled = estimate("oracle", 0.9, 0.05);
    settled.staleness = StalenessPolicy::Permanent;
    let late = Timestamp::from_nanos(3_600_000_000_000);
    let width = |e: &ProbabilityEstimate, at: Timestamp| {
        f(aggregate(&c(), &contract, &[e.clone()], &config, at).unwrap().band_width(&c()))
    };
    let now = Timestamp::from_nanos(0);
    assert_eq!(width(&settled, now), width(&settled, late));
    let aging = estimate("weather", 0.9, 0.05);
    assert!(width(&aging, late) > width(&aging, now));
}

#[test]
fn strays_are_dropped_and_no_opinion_is_an_error() {
    let contract = CanonicalContractId("c".into());
    let config = AggregatorConfig::default();
    let now = Timestamp::from_nanos(0);
    let mut stray = estimate("s", 0.1, 0.05);
    stray.contract = CanonicalContractId("other".into());
    let own = estimate("w", 0.7, 0.05);
    let alone = aggregate(&c(), &contract, &[own.clone()], &config, now).unwrap();
    let both = aggregate(&c(), &contract, &[stray.clone(), own], &config, now).unwrap();
    assert_eq!(alone.midpoint, both.midpoint);
    assert!(alone.band_low.le(alone.midpoint) && alone.midpoint.le(alone.band_high));
    assert_eq!(
        try_aggregate(&c(), &contract, &[stray], &config, now).unwrap_err(),
        AggregateError::NoUsableEstimates
    );
}

#[test]
fn a_shift_of_zero_moves_nothing() {
    let contract = CanonicalContractId("c".into());
    let config = AggregatorConfig::default();
    let now = Timestamp::from_nanos(0);
    let own = estimate("w", 0.7, 0.05);
    let mut shift = estimate("n", 0.0, 0.5);
    shift.kind = EstimateKind::LogOddsShift;
    let alone = aggregate(&c(), &contract, &[own.clone()], &config, now).unwrap();
    let moved = aggregate(&c(), &contract, &[own, shift], &config, now).unwrap();
    assert_eq!(alone.midpoint, moved.midpoint);
}

#[test]
fn a_posterior_is_exact_for_a_round_case() {
    // Beta(1, 1) after 3 of 4: Beta(4, 2), mean 2/3, variance 8/252.
    let (mean, std_dev) = beta_binomial_posterior(&c(), d(3.0), d(4.0), d(1.0), d(1.0));
    assert!((f(mean) - 2.0 / 3.0).abs() < 1e-12);
    assert!((f(std_dev) - (8.0f64 / 252.0).sqrt()).abs() < 1e-12);
    assert_eq!(f(clamp_probability(d(0.5))), 0.5);
    assert_eq!(f(clamp_probability(d(1.0))), 1.0 - 1e-4);
    assert_eq!(f(clamp_probability(d(0.0))), 1e-4);
}

#[test]
fn a_price_is_outside_the_band_only_beyond_its_ends() {
    let contract = CanonicalContractId("c".into());
    let fv = aggregate(
        &c(),
        &contract,
        &[estimate("w", 0.5, 0.1)],
        &AggregatorConfig::default(),
        Timestamp::from_nanos(0),
    )
    .unwrap();
    assert!(!fv.is_outside_band(fv.band_low) && !fv.is_outside_band(fv.band_high));
    assert!(!fv.is_outside_band(d(0.5)));
    assert!(fv.is_outside_band(d(0.39)) && fv.is_outside_band(d(0.61)));
    assert!(fv.validate(&c()).is_ok());
}

#[test]
fn a_forecaster_is_scored_by_what_came_true() {
    let mut tracker = ForecastQualityTracker::new();
    tracker.record(&c(), "w", d(0.8), true);
    tracker.record(&c(), "w", d(0.4), false);
    assert_eq!(tracker.sample_count("w"), 2);
    assert_eq!(tracker.sample_count("x"), 0);
    // (0.2^2 + 0.4^2) / 2
    assert!((f(tracker.brier_score(&c(), "w").unwrap()) - 0.1).abs() < 1e-12);
    let expected = -(0.8f64.ln() + 0.6f64.ln()) / 2.0;
    assert!((f(tracker.log_loss(&c(), "w").unwrap()) - expected).abs() < 1e-12);
    assert!(tracker.log_loss(&c(), "x").is_none());
    assert_eq!(tracker.reliability_curve(&c(), "w").len(), 2);
}

fn config(weather_std: f64, series_std: f64, sensitivity: f64) -> AlphaConfig {
    let mut series = TextMap::new();
    series.insert("cpi".into(), d(series_std));
    AlphaConfig {
        weather: WeatherConfig { min_std_dev: d(weather_std) },
        econ: EconConfig { surprise_std_by_series: series },
        news: NewsConfig { sensitivity: d(sensitivity) },
    }
}

#[test]
fn each_kind_of_bad_config_has_its_error() {
    assert!(config(0.01, 0.2, 0.5).validate(&c()).is_ok());
    for bad in [
        config(0.0, 0.2, 0.5),
        config(0.01, f64::NAN, 0.5),
        config(0.01, 0.2, -1.0),
        config(0.01, 0.2, 0.0),
    ] {
        assert!(matches!(bad.validate(&c()), Err(ConfigError::Invalid(_))));
    }
    let unparsed = AlphaConfig::from_parsed(&c(), Err("expected value".into()));
    assert_eq!(
        unparsed.unwrap_err().to_text(),
        "failed to parse config JSON: expected value"
    );
    assert_eq!(
        ConfigError::Io("gone".into()).to_text(),
        "failed to read config file: gone"
    );
    let certain = TennisConfig { serve_point_win: d(1.0), ..TennisConfig::default() };
    assert!(certain.validate(&c()).unwrap_err().to_text().contains("tennis.serve_point_win"));
}

#[test]
fn a_zero_shift_keeps_the_midpoint_and_narrows_no_band() {
    let base = [estimate("a", 0.3, 0.05), estimate("b", 0.36, 0.2)];
    let quiet = ProbabilityEstimate {
        kind: EstimateKind::LogOddsShift,
        ..estimate("headline", 0.0, 0.3)
    };
    let mut more = base.to_vec();
    more.push(quiet);
    let contract = CanonicalContractId("c".into());
    let config = AggregatorConfig::default();
    let now = Timestamp::from_nanos(0);
    let before = aggregate(&c(), &contract, &base, &config, now).unwrap();
    let after = aggregate(&c(), &contract, &more, &config, now).unwrap();
    assert_eq!(after.midpoint, before.midpoint);
    assert!(f(after.band_width(&c())) > f(before.band_width(&c())));
}

#[test]
fn no_source_is_certain_however_far_the_facts_lie() {
    let econ = EconNowcastSource::new("n");
    for (id, expected) in [
        ("econ.cpi_yoy.us.gt_30.2026-08-13.bls", 0.9999),
        ("econ.cpi_yoy.us.lt_30.2026-08-13.bls", 0.0001),
    ] {
        let sure = econ.on_event(&c(), &release(id, -100.0)).unwrap();
        assert!((f(sure.probability) - expected).abs() < 1e-12, "{}", f(sure.probability));
    }
    let distance = ReferenceDistanceSource::new("d");
    let settled = event(
        AlphaEventKind::ReferenceAsset,
        Payload {
            reference_distance: Some(ReferenceDistancePayload {
                contract: "c".into(),
                reference_price: d(100.0),
                current_price: d(200.0),
                seconds_remaining: d(0.0),
                recent_prices: vec![d(199.0), d(200.0), d(199.5)],
                tick_interval_secs: d(1.0),
            }),
            ..Payload::unknown()
        },
    );
    let p = f(distance.on_event(&c(), &settled).unwrap().probability);
    assert!(p > 0.999 && p < 1.0, "{p}");
}

#[test]
fn a_fair_value_passes_its_own_check() {
    let contract = CanonicalContractId("c".into());
    let config = AggregatorConfig::default();
    let now = Timestamp::from_nanos(90_000_000_000);
    let grouped = |p: f64| ProbabilityEstimate {
        correlation_group: Some("g".into()),
        ..estimate("m", p, 0.04)
    };
    let shift = ProbabilityEstimate {
        kind: EstimateKind::LogOddsShift,
        ..estimate("headline", -40.0, 0.5)
    };
    let all = [estimate("a", 0.0, 1e-9), grouped(1.0), grouped(0.9), shift];
    let fair = aggregate(&c(), &contract, &all, &config, now).unwrap();
    assert!(fair.validate(&c()).is_ok());
    // One alone, and a group of two that counts for 2 / 1.6.
    assert!((f(fair.effective_sample_size) - 2.25).abs() < 1e-12);
    assert!(f(fair.band_low) < f(fair.midpoint) && f(fair.midpoint) < f(fair.band_high));
    assert!(f(fair.midpoint) > 0.0);
}

#[test]
fn the_band_widens_with_disagreement_age_and_company() {
    let contract = CanonicalContractId("c".into());
    let config = AggregatorConfig::default();
    let width = |all: &[ProbabilityEstimate], seconds: i64| {
        let now = Timestamp::from_nanos(seconds * 1_000_000_000);
        f(aggregate(&c(), &contract, all, &config, now).unwrap().band_width(&c()))
    };
    let calm = [estimate("a", 0.5, 0.05), estimate("b", 0.5, 0.05)];
    let torn = [estimate("a", 0.3, 0.05), estimate("b", 0.7, 0.05)];
    let kin = calm.clone().map(|e| ProbabilityEstimate {
        correlation_group: Some("g".into()),
        ..e
    });
    // Two independent deviations of 0.05 leave one of 0.05 / sqrt(2).
    assert!((width(&calm, 0) - 0.1 / 2f64.sqrt()).abs() < 1e-9);
    // Two opinions at 0.2 from their mean.
    assert!((width(&torn, 0) - 0.4).abs() < 1e-9);
    // A group of two counts for 1 / 0.8 of one.
    assert!((width(&kin, 0) - 0.1 * 0.8f64.sqrt()).abs() < 1e-9);
    // Two half-lives quadruple the deviation.
    assert!((width(&calm, 60) - 0.4 / 2f64.sqrt()).abs() < 1e-9);
}
