use parallax::double::{Arithmetic, Double, Op, Style};
use parallax::types::contract::{CanonicalContractSpec, Direction, EventClass};

#[allow(dead_code)]
fn c() -> Arithmetic {
    Arithmetic::new(
        |op: Op, a: u64, b: u64| -> u64 {
            let x = f64::from_bits(a);
            let y = f64::from_bits(b);
            match op {
                Op::Sum => (x + y).to_bits(),
                Op::Difference => (x - y).to_bits(),
                Op::Product => (x * y).to_bits(),
                Op::Quotient => (x / y).to_bits(),
                Op::SquareRoot => x.sqrt().to_bits(),
                Op::Exponential => x.exp().to_bits(),
                Op::Logarithm => x.ln().to_bits(),
                Op::HyperbolicTangent => x.tanh().to_bits(),
                Op::Power => x.powf(y).to_bits(),
                Op::IntegerPower => x.powi(b as i32).to_bits(),
                Op::Floor => x.floor().to_bits(),
                Op::Ceiling => x.ceil().to_bits(),
                Op::OfCount => (a as f64).to_bits(),
                Op::ToIndex => x as u64,
            }
        },
        |style: Style, x: Double| -> String {
            let v = f64::from_bits(x.bits);
            match style {
                Style::Shortest => format!("{v}"),
                Style::TwoPlaces => format!("{v:.2}"),
                Style::FourPlaces => format!("{v:.4}"),
            }
        },
    )
}

#[allow(dead_code)]
fn d(x: f64) -> Double {
    Double::from_bits(x.to_bits())
}

#[allow(dead_code)]
fn f(x: Double) -> f64 {
    f64::from_bits(x.bits)
}

#[test]
fn same_event_different_units_map_to_same_id() {
    let from_polymarket = CanonicalContractSpec {
        event_class: EventClass("wx.temp".into()),
        location: "Chicago".into(),
        threshold: 869,
        direction: Direction::GreaterThan,
        resolution_window: "2026-08-12".into(),
        resolution_source: "nws_official".into(),
    };
    let from_kalshi = CanonicalContractSpec {
        event_class: EventClass("wx.temp".into()),
        location: "chicago".into(),
        threshold: 869,
        direction: Direction::GreaterThan,
        resolution_window: "2026-08-12".into(),
        resolution_source: "nws_official".into(),
    };
    assert_eq!(from_polymarket.to_id(), from_kalshi.to_id());
}

#[test]
fn different_thresholds_share_a_cluster() {
    let base = CanonicalContractSpec {
        event_class: EventClass("wx.temp".into()),
        location: "Chicago".into(),
        threshold: 869,
        direction: Direction::GreaterThan,
        resolution_window: "2026-08-12".into(),
        resolution_source: "nws_official".into(),
    };
    let mut other = base.clone();
    other.threshold = 900;
    assert_ne!(base.to_id(), other.to_id());
    assert_eq!(base.cluster_key(), other.cluster_key());
}

#[test]
fn between_with_different_upper_bounds_are_different_contracts() {
    let base = CanonicalContractSpec {
        event_class: EventClass("wx.temp".into()),
        location: "chicago".into(),
        threshold: 70,
        direction: Direction::Between { upper: 80 },
        resolution_window: "2026-08-12".into(),
        resolution_source: "nws_official".into(),
    };
    let mut other = base.clone();
    other.direction = Direction::Between { upper: 90 };
    assert_ne!(
        base.to_id(),
        other.to_id(),
        "different upper bounds must not collide"
    );
    assert_eq!(
        base.to_id().direction(),
        Some(Direction::Between { upper: 80 })
    );
    assert_eq!(
        other.to_id().direction(),
        Some(Direction::Between { upper: 90 })
    );
}

#[test]
fn case_folding_makes_resolution_source_collide_as_intended() {
    let lower = CanonicalContractSpec {
        event_class: EventClass("wx.temp".into()),
        location: "chicago".into(),
        threshold: 869,
        direction: Direction::GreaterThan,
        resolution_window: "2026-08-12".into(),
        resolution_source: "nws_official".into(),
    };
    let mut upper = lower.clone();
    upper.resolution_source = "NWS_Official".into();
    assert_eq!(
        lower.to_id(),
        upper.to_id(),
        "differently-cased resolution sources must be the same contract"
    );
}

#[test]
fn a_literal_dot_in_a_free_text_field_does_not_collide_with_a_different_split() {
    let a = CanonicalContractSpec {
        event_class: EventClass("wx".into()),
        location: "temp.chicago".into(),
        threshold: 869,
        direction: Direction::GreaterThan,
        resolution_window: "2026-08-12".into(),
        resolution_source: "nws_official".into(),
    };
    let b = CanonicalContractSpec {
        event_class: EventClass("wx.temp".into()),
        location: "chicago".into(),
        threshold: 869,
        direction: Direction::GreaterThan,
        resolution_window: "2026-08-12".into(),
        resolution_source: "nws_official".into(),
    };
    assert_ne!(a.to_id(), b.to_id());
    assert_eq!(a.to_id().location(), Some("temp.chicago".to_string()));
    assert_eq!(b.to_id().location(), Some("chicago".to_string()));
}

#[test]
fn direction_and_threshold_round_trip_through_the_id() {
    let spec = CanonicalContractSpec {
        event_class: EventClass("wx.temp".into()),
        location: "chicago".into(),
        threshold: -50,
        direction: Direction::LessThan,
        resolution_window: "2026-08-12".into(),
        resolution_source: "nws_official".into(),
    };
    let id = spec.to_id();
    assert_eq!(id.direction(), Some(Direction::LessThan));
    assert_eq!(id.threshold(), Some(-50));
}

#[test]
fn exposure_sign_is_zero_for_between_and_opposite_for_gt_lt() {
    assert_eq!(f(Direction::GreaterThan.exposure_sign()), 1.0);
    assert_eq!(f(Direction::LessThan.exposure_sign()), -1.0);
    assert_eq!(f(Direction::Between { upper: 10 }.exposure_sign()), 0.0);
}
