use parallax::double::{Arithmetic, Double, Op, Style};
use parallax::keyed::{TextMap, VenueMap};
use parallax::text;
use parallax::types::venue::VenueId;

#[allow(dead_code)]
fn c() -> Arithmetic {
    Arithmetic::new(
        |op: Op, a: u64, b: u64| -> u64 {
            let x = f64::from_bits(a);
            let y = f64::from_bits(b);
            match op {
                Op::Sum => (x + y).to_bits(),
                Op::Difference => (x - y).to_bits(),
                Op::Product => (x * y).to_bits(),
                Op::Quotient => (x / y).to_bits(),
                Op::SquareRoot => x.sqrt().to_bits(),
                Op::Exponential => x.exp().to_bits(),
                Op::Logarithm => x.ln().to_bits(),
                Op::HyperbolicTangent => x.tanh().to_bits(),
                Op::Power => x.powf(y).to_bits(),
                Op::IntegerPower => x.powi(b as i32).to_bits(),
                Op::Floor => x.floor().to_bits(),
                Op::Ceiling => x.ceil().to_bits(),
                Op::OfCount => (a as f64).to_bits(),
                Op::ToIndex => x as u64,
            }
        },
        |style: Style, x: Double| -> String {
            let v = f64::from_bits(x.bits);
            match style {
                Style::Shortest => format!("{v}"),
                Style::TwoPlaces => format!("{v:.2}"),
                Style::FourPlaces => format!("{v:.4}"),
            }
        },
    )
}

#[allow(dead_code)]
fn d(x: f64) -> Double {
    Double::from_bits(x.to_bits())
}

#[allow(dead_code)]
fn f(x: Double) -> f64 {
    f64::from_bits(x.bits)
}

#[test]
fn decimals_read_back() {
    for n in [0, 1, -1, 42, i64::MAX, i64::MIN] {
        let written = text::decimal_i64(n);
        assert_eq!(written, n.to_string());
        assert_eq!(text::parse_i64(&text::chars_of(&written)), Some(n));
    }
    assert_eq!(text::decimal_u64(u64::MAX), u64::MAX.to_string());
}

#[test]
fn what_is_no_number_does_not_parse() {
    for s in ["", "-", "+", "1x", " 1", "9223372036854775808", "-9223372036854775809"] {
        assert_eq!(text::parse_i64(&text::chars_of(s)), s.parse::<i64>().ok(), "{s}");
    }
    assert_eq!(text::parse_i64(&text::chars_of("+7")), Some(7));
}

#[test]
fn hex_has_sixteen_digits() {
    assert_eq!(text::hex_16(0), "0000000000000000");
    assert_eq!(text::hex_16(0xdead_beef), "00000000deadbeef");
    assert_eq!(text::hex_16(u64::MAX), "ffffffffffffffff");
}

#[test]
fn splitting_keeps_empty_pieces() {
    let pieces = text::split(&text::chars_of("a..b"), '.');
    let words: Vec<String> = pieces.iter().map(|p| text::string_of(p)).collect();
    assert_eq!(words, ["a", "", "b"]);
    assert_eq!(text::find_last(&text::chars_of("a.b.c"), 5, '.'), Some(3));
    assert_eq!(text::find_last(&text::chars_of("a.b.c"), 3, '.'), Some(1));
    assert_eq!(text::find_last(&text::chars_of("abc"), 3, '.'), None);
    assert_eq!(text::piece(&text::chars_of("abcd"), 1, 3), "bc");
}

#[test]
fn text_is_ordered_by_its_characters() {
    assert!(text::text_before("a", "b"));
    assert!(text::text_before("a", "aa"));
    assert!(!text::text_before("b", "aa"));
    assert!(!text::text_before("a", "a"));
    assert!(text::same_text("é", "é") && !text::same_text("é", "e"));
}

#[test]
fn a_text_map_keeps_the_order_of_first_insertion() {
    let mut map: TextMap<u32> = TextMap::new();
    map.insert("b".into(), 1);
    map.insert("a".into(), 2);
    map.insert("b".into(), 3);
    assert_eq!(map.len(), 2);
    assert_eq!(map.get("b"), Some(&3));
    assert_eq!((map.name_at(0).as_str(), *map.value_at(1)), ("b", 2));
    assert!(map.contains("a") && !map.contains("c"));
    assert_eq!(map.take("b"), Some(3));
    assert_eq!(map.take("b"), None);
    assert_eq!(map.drain(), vec![("a".to_string(), 2)]);
    assert_eq!(map.len(), 0);
}

#[test]
fn a_venue_map_has_one_place_for_each_venue() {
    let mut map: VenueMap<u32> = VenueMap::new();
    map.set(VenueId::Kalshi, Some(1));
    map.set(VenueId::Paper, Some(2));
    map.set(VenueId::Kalshi, None);
    assert_eq!(map.get(VenueId::Kalshi), None);
    assert_eq!(map.get(VenueId::Paper), Some(&2));
    assert_eq!(map.get(VenueId::Polymarket), None);
}
