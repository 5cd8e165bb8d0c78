use parallax::double::{Arithmetic, Double, Op, Style};
use parallax::types::contract::{
    escape_component, unescape_component, CanonicalContractId, CanonicalContractSpec, Direction,
    EventClass,
};
use parallax::types::orders::{
    fnv1a_64, ClientOrderId, EngineId, ExecError, OrderId, OrderIntent, OrderType, Outcome, Side,
};
use parallax::types::position::Position;
use parallax::types::time::Timestamp;
use parallax::types::validate::{finite, non_negative, positive, probability};
use parallax::types::venue::{FeeModel, VenueId};

#[allow(dead_code)]
fn c() -> Arithmetic {
    Arithmetic::new(
        |op: Op, a: u64, b: u64| -> u64 {
            let x = f64::from_bits(a);
            let y = f64::from_bits(b);
            match op {
                Op::Sum => (x + y).to_bits(),
                Op::Difference => (x - y).to_bits(),
                Op::Product => (x * y).to_bits(),
                Op::Quotient => (x / y).to_bits(),
                Op::SquareRoot => x.sqrt().to_bits(),
                Op::Exponential => x.exp().to_bits(),
                Op::Logarithm => x.ln().to_bits(),
                Op::HyperbolicTangent => x.tanh().to_bits(),
                Op::Power => x.powf(y).to_bits(),
                Op::IntegerPower => x.powi(b as i32).to_bits(),
                Op::Floor => x.floor().to_bits(),
                Op::Ceiling => x.ceil().to_bits(),
                Op::OfCount => (a as f64).to_bits(),
                Op::ToIndex => x as u64,
            }
        },
        |style: Style, x: Double| -> String {
            let v = f64::from_bits(x.bits);
            match style {
                Style::Shortest => format!("{v}"),
                Style::TwoPlaces => format!("{v:.2}"),
                Style::FourPlaces => format!("{v:.4}"),
            }
        },
    )
}

#[allow(dead_code)]
fn d(x: f64) -> Double {
    Double::from_bits(x.to_bits())
}

#[allow(dead_code)]
fn f(x: Double) -> f64 {
    f64::from_bits(x.bits)
}

fn spec(location: &str, direction: Direction) -> CanonicalContractSpec {
    CanonicalContractSpec {
        event_class: EventClass("wx.temp".into()),
        location: location.into(),
        threshold: 869,
        direction,
        resolution_window: "2026-08-12".into(),
        resolution_source: "nws".into(),
    }
}

fn intent() -> OrderIntent {
    OrderIntent {
        venue: VenueId::Kalshi,
        contract: CanonicalContractId("c".into()),
        outcome: Outcome::Yes,
        side: Side::Buy,
        price: d(0.5),
        size: d(10.0),
        order_type: OrderType::Limit,
        engine: EngineId::StatArb,
        created_at: Timestamp::from_nanos(7),
    }
}

#[test]
fn the_clock_reads_a_time_after_the_epoch() {
    // 2020-01-01, in nanoseconds.
    assert!(Timestamp::now().as_nanos() > 1_577_836_800_000_000_000);
}

#[test]
fn a_clock_out_of_range_is_cut() {
    assert_eq!(Timestamp::from_clock(None).as_nanos(), 0);
    assert_eq!(Timestamp::from_clock(Some(5)).as_nanos(), 5);
    assert_eq!(Timestamp::from_clock(Some(u128::MAX)).as_nanos(), i64::MAX);
}

#[test]
fn an_age_never_wraps() {
    let (early, late) = (Timestamp::from_nanos(i64::MIN), Timestamp::from_nanos(i64::MAX));
    assert_eq!(late.since(early), i64::MAX);
    assert_eq!(early.since(late), i64::MIN);
    assert_eq!(Timestamp::from_nanos(5).since(Timestamp::from_nanos(2)), 3);
}

#[test]
fn ids_are_lowercase_also_beyond_ascii() {
    let id = spec("MÜNCHEN Ost", Direction::GreaterThan).to_id();
    assert_eq!(id.0, "wx.temp.münchen_ost.gt_869.2026-08-12.nws");
    assert_eq!(id, spec("münchen ost", Direction::GreaterThan).to_id());
}

#[test]
fn components_read_back_after_escaping() {
    for s in ["st. louis", "a.b", "100%", "%2e", "", "..%%"] {
        let escaped = escape_component(s);
        assert!(!escaped.contains('.'), "{escaped}");
        assert_eq!(unescape_component(&escaped), s);
    }
}

#[test]
fn direction_tokens_read_back() {
    for direction in [
        Direction::GreaterThan,
        Direction::LessThan,
        Direction::Between { upper: -3 },
    ] {
        let token = direction.token(-12);
        assert_eq!(Direction::parse_token(&token), Some((direction, -12)));
    }
    for broken in ["", "gt", "gt_", "gt_x", "up_3", "between_3", "between_3_"] {
        assert_eq!(Direction::parse_token(broken), None, "{broken}");
    }
}

#[test]
fn an_id_reads_back_and_its_cluster_leaves_out_the_terms() {
    let between = spec("st. louis", Direction::Between { upper: 900 });
    let id = between.to_id();
    assert_eq!(id.direction(), Some(Direction::Between { upper: 900 }));
    assert_eq!(id.threshold(), Some(869));
    assert_eq!(id.location(), Some("st._louis".to_string()));
    assert_eq!(id.resolution_source(), Some("nws".to_string()));
    assert_ne!(id, spec("st. louis", Direction::Between { upper: 901 }).to_id());
    assert_eq!(
        between.cluster_key(),
        spec("st. louis", Direction::LessThan).cluster_key()
    );
    assert_eq!(CanonicalContractId("no.terms".into()).direction(), None);
}

#[test]
fn what_is_not_finite_fails_every_check() {
    for x in [f64::NAN, f64::INFINITY, f64::NEG_INFINITY] {
        assert!(finite(&c(), "x", d(x)).is_err());
        assert!(probability(&c(), "x", d(x)).is_err());
        assert!(positive(&c(), "x", d(x)).is_err());
        assert!(non_negative(&c(), "x", d(x)).is_err());
    }
    assert!(probability(&c(), "x", d(1.0)).is_ok() && probability(&c(), "x", d(1.1)).is_err());
    assert!(positive(&c(), "x", d(0.0)).is_err() && non_negative(&c(), "x", d(0.0)).is_ok());
    assert_eq!(positive(&c(), "size", d(-1.0)).unwrap_err().field, "size");
}

#[test]
fn a_resend_keeps_the_key_and_another_order_gets_another() {
    let first = ClientOrderId::derive(&c(), &intent());
    assert_eq!(first, ClientOrderId::derive(&c(), &intent()));
    let mut other = intent();
    other.size = d(11.0);
    assert_ne!(first, ClientOrderId::derive(&c(), &other));
    assert_eq!(first.to_text(), first.0);
}

#[test]
fn hashes_are_those_of_fnv1a() {
    assert_eq!(fnv1a_64(b""), 0xcbf2_9ce4_8422_2325);
    assert_eq!(fnv1a_64(b"a"), 0xaf63_dc4c_8601_ec8c);
    assert_eq!(fnv1a_64(b"foobar"), 0x8594_4171_f739_67e8);
}

#[test]
fn errors_of_a_venue_say_what_happened() {
    let venue = VenueId::Kalshi;
    let texts = [
        ExecError::Rejected { venue, reason: "no".into() }.to_text(),
        ExecError::RateLimited { venue, retry_after_ms: 250 }.to_text(),
        ExecError::Connection { venue, message: "reset".into() }.to_text(),
        ExecError::NotFound(OrderId("o1".into())).to_text(),
        ExecError::Indeterminate { venue }.to_text(),
    ];
    assert!(texts[0].contains("no") && texts[1].contains("250") && texts[2].contains("reset"));
    assert!(texts[3].contains("o1") && texts[4].contains("kalshi"));
    assert!(!ExecError::Indeterminate { venue }.is_safely_retryable());
    assert!(ExecError::NotFound(OrderId("o1".into())).is_safely_retryable());
}

#[test]
fn a_fill_that_flips_a_position_starts_anew() {
    let mut p = Position::flat(VenueId::Kalshi, CanonicalContractId("c".into()));
    assert_eq!(f(p.apply_fill(&c(), d(10.0), d(0.4), d(0.1))), 0.0);
    let realized = f(p.apply_fill(&c(), d(-15.0), d(0.6), d(0.2)));
    assert!((realized - 2.0).abs() < 1e-12);
    assert_eq!((f(p.qty), f(p.avg_price)), (-5.0, 0.6));
    assert!((f(p.fees_paid) - 0.3).abs() < 1e-12);
    p.apply_fill(&c(), d(5.0 + 1e-12), d(0.5), d(0.0));
    assert!(p.is_flat());
    assert_eq!((f(p.qty), f(p.avg_price)), (0.0, 0.0));
}

#[test]
fn fees_are_exact_for_a_round_case() {
    // 0.07 * 100 * 0.5 * 0.5 = 1.75 for a taker.
    assert!((f(FeeModel::kalshi_default().fee(&c(), false, d(100.0), d(0.5))) - 1.75).abs() < 1e-9);
    let free = FeeModel { maker_rate: d(0.0), taker_rate: d(0.0), round_up_to: d(0.0) };
    assert_eq!(f(free.fee(&c(), true, d(100.0), d(0.5))), 0.0);
}

#[test]
fn clusters_merge_only_for_one_class_place_and_window() {
    let a = spec("chicago", Direction::GreaterThan);
    let mut b = spec("CHICAGO", Direction::LessThan);
    b.threshold = 1;
    b.resolution_source = "other".into();
    assert_eq!(a.cluster_key(), b.cluster_key());
    let elsewhere = spec("chicago.north", Direction::GreaterThan);
    assert!(elsewhere.cluster_key() != a.cluster_key());
    let mut later = spec("chicago", Direction::GreaterThan);
    later.resolution_window = "2026-08-13".into();
    assert!(later.cluster_key() != a.cluster_key());
    let mut other = spec("chicago", Direction::GreaterThan);
    other.event_class.0.push_str(".x");
    assert!(other.cluster_key() != a.cluster_key());
}
