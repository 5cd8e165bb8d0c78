use parallax::alpha::source::AlphaSource;
use parallax::alpha::config::TennisConfig;
use parallax::alpha::payload::{Payload, TennisPayload};
use parallax::alpha::sources::tennis::{TennisFeedAlert, TennisFeedHealth, TennisMatchStateSource, is_break_point};
use parallax::double::{Arithmetic, Double, Op, Style};
use parallax::types::alpha::{AlphaEventKind, RawEvent};
use parallax::types::time::Timestamp;

#[allow(dead_code)]
fn c() -> Arithmetic {
    Arithmetic::new(
        |op: Op, a: u64, b: u64| -> u64 {
            let x = f64::from_bits(a);
            let y = f64::from_bits(b);
            match op {
                Op::Sum => (x + y).to_bits(),
                Op::Difference => (x - y).to_bits(),
                Op::Product => (x * y).to_bits(),
                Op::Quotient => (x / y).to_bits(),
                Op::SquareRoot => x.sqrt().to_bits(),
                Op::Exponential => x.exp().to_bits(),
                Op::Logarithm => x.ln().to_bits(),
                Op::HyperbolicTangent => x.tanh().to_bits(),
                Op::Power => x.powf(y).to_bits(),
                Op::IntegerPower => x.powi(b as i32).to_bits(),
                Op::Floor => x.floor().to_bits(),
                Op::Ceiling => x.ceil().to_bits(),
                Op::OfCount => (a as f64).to_bits(),
                Op::ToIndex => x as u64,
            }
        },
        |style: Style, x: Double| -> String {
            let v = f64::from_bits(x.bits);
            match style {
                Style::Shortest => format!("{v}"),
                Style::TwoPlaces => format!("{v:.2}"),
                Style::FourPlaces => format!("{v:.4}"),
            }
        },
    )
}

#[allow(dead_code)]
fn d(x: f64) -> Double {
    Double::from_bits(x.to_bits())
}

#[allow(dead_code)]
fn f(x: Double) -> f64 {
    f64::from_bits(x.bits)
}

fn event(payload: TennisPayload) -> RawEvent {
    RawEvent {
        source: "live-tennis".into(),
        kind: AlphaEventKind::SportsMatchState,
        publish_ts: None,
        receive_ts: Timestamp::from_nanos(0),
        payload: Payload {
            tennis: Some(payload),
            ..Payload::unknown()
        },
    }
}

fn snapshot(
    sets: (i64, i64),
    games: (i64, i64),
    points: (&str, &str),
    server: i64,
) -> TennisPayload {
    TennisPayload {
        contract: "tennis.match.p1_wins.2026-08-17.vendor_official".into(),
        sport: "tennis".into(),
        yes_side: 1,
        status: Some("live".into()),
        format: Some("BO3".into()),
        sets: vec![sets.0, sets.1],
        games: vec![vec![games.0], vec![games.1]],
        points: Some(vec![Some(points.0.into()), Some(points.1.into())]),
        server: Some(server),
        is_tiebreak: false,
    }
}

#[test]
fn a_fresh_match_is_near_a_coin_flip() {
    let src = TennisMatchStateSource::new("live-tennis");
    let est = src
        .on_event(&c(), &event(snapshot((0, 0), (0, 0), ("0", "0"), 1)))
        .unwrap();
    assert!(
        f(est.probability) > 0.45 && f(est.probability) < 0.60,
        "probability was {}",
        f(est.probability)
    );
}

#[test]
fn a_set_and_a_break_up_is_priced_heavily_but_not_certain() {
    let src = TennisMatchStateSource::new("live-tennis");
    let payload = TennisPayload {
        sets: vec![1, 0],
        games: vec![vec![6, 4], vec![3, 1]],
        ..snapshot((1, 0), (0, 0), ("0", "0"), 1)
    };
    let est = src.on_event(&c(), &event(payload)).unwrap();
    assert!(f(est.probability) > 0.8, "probability was {}", f(est.probability));
    assert!(f(est.probability) < 1.0);
}

#[test]
fn the_yes_side_orients_the_estimate_explicitly() {
    let src = TennisMatchStateSource::new("live-tennis");
    let mut on_p1 = snapshot((1, 0), (3, 1), ("30", "0"), 1);
    let mut on_p2 = on_p1.clone();
    on_p1.yes_side = 1;
    on_p2.yes_side = 2;
    let est_p1 = src.on_event(&c(), &event(on_p1)).unwrap();
    let est_p2 = src.on_event(&c(), &event(on_p2)).unwrap();
    assert!(
        (f(est_p1.probability) + f(est_p2.probability) - 1.0).abs() < 1e-9,
        "sides must price to complements, got {} and {}",
        f(est_p1.probability),
        f(est_p2.probability)
    );
}

#[test]
fn an_unrecognized_yes_side_yields_silence_not_a_guess() {
    let src = TennisMatchStateSource::new("live-tennis");
    let mut payload = snapshot((0, 0), (2, 2), ("15", "15"), 1);
    payload.yes_side = 3;
    assert!(src.on_event(&c(), &event(payload)).is_none());
}

#[test]
fn tennis_irrelevant_event_kind_yields_no_opinion() {
    let src = TennisMatchStateSource::new("live-tennis");
    let mut ev = event(snapshot((0, 0), (0, 0), ("0", "0"), 1));
    ev.kind = AlphaEventKind::NewsHeadline;
    assert!(src.on_event(&c(), &ev).is_none());
}

#[test]
fn a_different_sport_on_the_shared_kind_yields_silence() {
    let src = TennisMatchStateSource::new("live-tennis");
    let mut payload = snapshot((0, 0), (0, 0), ("0", "0"), 1);
    payload.sport = "football".into();
    assert!(src.on_event(&c(), &event(payload)).is_none());
}

#[test]
fn an_unrecognized_point_string_is_malformed_not_a_score() {
    let src = TennisMatchStateSource::new("live-tennis");
    let payload = snapshot((0, 0), (2, 2), ("37", "15"), 1);
    assert!(src.on_event(&c(), &event(payload)).is_none());
}

#[test]
fn a_null_server_yields_silence_not_an_unoriented_guess() {
    let src = TennisMatchStateSource::new("live-tennis");
    let mut payload = snapshot((0, 0), (2, 2), ("15", "15"), 1);
    payload.server = None;
    assert!(src.on_event(&c(), &event(payload)).is_none());
}

#[test]
fn null_points_price_the_game_from_its_start() {
    let src = TennisMatchStateSource::new("live-tennis");
    let mut nulls = snapshot((0, 0), (3, 2), ("0", "0"), 2);
    nulls.points = Some(vec![None, None]);
    let explicit = snapshot((0, 0), (3, 2), ("0", "0"), 2);
    let from_nulls = src.on_event(&c(), &event(nulls)).unwrap();
    let from_love_all = src.on_event(&c(), &event(explicit)).unwrap();
    assert!(
        (f(from_nulls.probability) - f(from_love_all.probability)).abs() < 1e-9,
        "a null in-game score must price exactly like a game at its start"
    );
}

#[test]
fn a_single_sided_null_point_entry_is_malformed() {
    let src = TennisMatchStateSource::new("live-tennis");
    let mut payload = snapshot((0, 0), (3, 2), ("0", "0"), 1);
    payload.points = Some(vec![Some("30".into()), None]);
    assert!(src.on_event(&c(), &event(payload)).is_none());
}

#[test]
fn a_missing_format_is_unpriceable_not_a_bo3_assumption() {
    let src = TennisMatchStateSource::new("live-tennis");
    let mut payload = snapshot((0, 0), (0, 0), ("0", "0"), 1);
    payload.format = None;
    assert!(src.on_event(&c(), &event(payload)).is_none());
}

#[test]
fn a_non_live_status_yields_silence() {
    let src = TennisMatchStateSource::new("live-tennis");
    let mut payload = snapshot((0, 0), (0, 0), ("0", "0"), 1);
    payload.status = Some("completed".into());
    assert!(src.on_event(&c(), &event(payload)).is_none());
}

#[test]
fn an_already_decided_scoreline_yields_silence() {
    let src = TennisMatchStateSource::new("live-tennis");
    let payload = snapshot((2, 0), (0, 0), ("0", "0"), 1);
    assert!(src.on_event(&c(), &event(payload)).is_none());
}

#[test]
fn a_break_point_prices_lower_and_wider_than_a_game_point() {
    let src = TennisMatchStateSource::new("live-tennis");
    let facing_break = src
        .on_event(&c(), &event(snapshot((0, 0), (2, 2), ("0", "40"), 1)))
        .unwrap();
    let game_point = src
        .on_event(&c(), &event(snapshot((0, 0), (2, 2), ("40", "0"), 1)))
        .unwrap();
    assert!(
        f(facing_break.probability) < f(game_point.probability),
        "facing break {} vs game point {}",
        f(facing_break.probability),
        f(game_point.probability)
    );
    assert!(
        f(facing_break.std_dev) > f(game_point.std_dev),
        "the band must be widest where one point moves the price most: {} vs {}",
        f(facing_break.std_dev),
        f(game_point.std_dev)
    );
}

#[test]
fn the_same_lead_is_worth_more_over_three_sets_than_five() {
    let src = TennisMatchStateSource::new("live-tennis");
    let bo3 = snapshot((1, 0), (0, 0), ("0", "0"), 1);
    let mut bo5 = bo3.clone();
    bo5.format = Some("BO5".into());
    bo5.sets = vec![1, 0];
    let est_bo3 = src.on_event(&c(), &event(bo3)).unwrap();
    let est_bo5 = src.on_event(&c(), &event(bo5)).unwrap();
    assert!(
        f(est_bo3.probability) > f(est_bo5.probability),
        "BO3 {} must exceed BO5 {}",
        f(est_bo3.probability),
        f(est_bo5.probability)
    );
}

#[test]
fn a_tiebreak_is_priced_wide_never_narrowed_by_a_guess() {
    let src = TennisMatchStateSource::new("live-tennis");
    let mut payload = snapshot((0, 0), (6, 6), ("0", "0"), 1);
    payload.is_tiebreak = true;
    let est = src.on_event(&c(), &event(payload)).unwrap();
    assert!(
        (f(est.probability) - 0.5).abs() < 1e-9,
        "probability was {}",
        f(est.probability)
    );
    assert!(f(est.std_dev) >= 0.2, "std_dev was {}", f(est.std_dev));
}

#[test]
fn six_all_is_a_tiebreak_even_if_the_flag_is_stale() {
    let src = TennisMatchStateSource::new("live-tennis");
    let flagged = {
        let mut p = snapshot((0, 0), (6, 6), ("0", "0"), 1);
        p.is_tiebreak = true;
        p
    };
    let unflagged = snapshot((0, 0), (6, 6), ("0", "0"), 1);
    let a = src.on_event(&c(), &event(flagged)).unwrap();
    let b = src.on_event(&c(), &event(unflagged)).unwrap();
    assert_eq!(f(a.probability), f(b.probability));
    assert_eq!(f(a.std_dev), f(b.std_dev));
}

#[test]
fn from_config_applies_the_operator_supplied_constants() {
    let config = TennisConfig {
        serve_point_win: d(0.62),
        min_std_dev: d(0.3),
    };
    let src = TennisMatchStateSource::from_config("live-tennis", &config);
    let est = src
        .on_event(&c(), &event(snapshot((1, 0), (5, 0), ("40", "0"), 1)))
        .unwrap();
    assert!(f(est.std_dev) >= 0.3, "std_dev was {}", f(est.std_dev));
}

#[test]
fn tennis_correlation_group_is_attached_when_configured() {
    let src = TennisMatchStateSource::new("live-tennis").with_correlation_group("vendor-feed");
    let est = src
        .on_event(&c(), &event(snapshot((0, 0), (0, 0), ("0", "0"), 1)))
        .unwrap();
    assert_eq!(est.correlation_group.as_deref(), Some("vendor-feed"));
}

#[test]
fn probability_is_never_reported_as_exactly_certain() {
    let src = TennisMatchStateSource::new("live-tennis");
    let est = src
        .on_event(&c(), &event(snapshot((1, 0), (5, 0), ("40", "0"), 1)))
        .unwrap();
    assert!(f(est.probability) < 1.0);
    assert!(f(est.probability) > 0.9, "probability was {}", f(est.probability));
}


fn pts(a: &str, b: &str) -> Vec<Option<String>> {
    vec![Some(a.into()), Some(b.into())]
}

#[test]
fn receiver_at_advantage_is_a_break_point() {
    assert!(is_break_point(Some(1), Some(&pts("40", "AD")), false));
}

#[test]
fn receiver_at_forty_against_a_thirty_serve_is_a_break_point() {
    assert!(is_break_point(Some(1), Some(&pts("30", "40")), false));
    assert!(is_break_point(Some(2), Some(&pts("40", "0")), false));
}

#[test]
fn deuce_is_not_a_break_point() {
    assert!(!is_break_point(Some(1), Some(&pts("40", "40")), false));
}

#[test]
fn a_server_advantage_or_game_point_is_not_a_break_point() {
    assert!(!is_break_point(Some(1), Some(&pts("AD", "40")), false));
    assert!(!is_break_point(Some(1), Some(&pts("40", "15")), false));
}

#[test]
fn a_tiebreak_never_has_a_break_point() {
    assert!(!is_break_point(Some(1), Some(&pts("30", "40")), true));
}

#[test]
fn null_server_or_points_is_false_not_a_guess() {
    assert!(!is_break_point(None, Some(&pts("30", "40")), false));
    assert!(!is_break_point(Some(1), None, false));
    assert!(!is_break_point(
        Some(1),
        Some(&[Some("30".into()), None]),
        false
    ));
}

#[test]
fn an_unrecognized_token_is_false_not_a_guess() {
    assert!(!is_break_point(Some(1), Some(&pts("30", "45")), false));
}


#[test]
fn tennis_a_single_failure_below_the_threshold_raises_no_alert() {
    let mut monitor = TennisFeedHealth::new(3);
    assert_eq!(monitor.record(101, false), None);
    assert_eq!(monitor.record(101, false), None);
}

#[test]
fn tennis_reaching_the_threshold_raises_an_alert_with_the_streak_length() {
    let mut monitor = TennisFeedHealth::new(3);
    monitor.record(101, false);
    monitor.record(101, false);
    assert_eq!(
        monitor.record(101, false),
        Some(TennisFeedAlert {
            match_id: 101,
            consecutive_failures: 3
        })
    );
}

#[test]
fn tennis_continuing_failure_keeps_alerting_past_the_threshold() {
    let mut monitor = TennisFeedHealth::new(2);
    monitor.record(101, false);
    monitor.record(101, false);
    assert_eq!(
        monitor.record(101, false),
        Some(TennisFeedAlert {
            match_id: 101,
            consecutive_failures: 3
        })
    );
}

#[test]
fn tennis_a_success_resets_the_streak() {
    let mut monitor = TennisFeedHealth::new(2);
    monitor.record(101, false);
    assert_eq!(monitor.record(101, true), None);
    assert_eq!(monitor.record(101, false), None);
}

#[test]
fn matches_are_tracked_independently() {
    let mut monitor = TennisFeedHealth::new(2);
    monitor.record(101, false);
    monitor.record(101, false);
    assert_eq!(monitor.record(202, false), None);
}

#[test]
fn tennis_zero_configuration_is_clamped_to_at_least_one() {
    let mut monitor = TennisFeedHealth::new(0);
    assert!(monitor.record(101, false).is_some());
}
