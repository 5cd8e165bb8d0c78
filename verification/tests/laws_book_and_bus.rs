use parallax::double::{Arithmetic, Double, Op, Style};
use parallax::book::ConsolidatedBook;
use parallax::bus::queue::Bus;
use parallax::bus::topics::{PipelineBus, PipelineBusConfig};
use parallax::types::contract::CanonicalContractId;
use parallax::types::market::{BookDepth, DepthLevel, NormalizedTick};
use parallax::types::time::Timestamp;
use parallax::types::venue::VenueId;

#[allow(dead_code)]
fn c() -> Arithmetic {
    Arithmetic::new(
        |op: Op, a: u64, b: u64| -> u64 {
            let x = f64::from_bits(a);
            let y = f64::from_bits(b);
            match op {
                Op::Sum => (x + y).to_bits(),
                Op::Difference => (x - y).to_bits(),
                Op::Product => (x * y).to_bits(),
                Op::Quotient => (x / y).to_bits(),
                Op::SquareRoot => x.sqrt().to_bits(),
                Op::Exponential => x.exp().to_bits(),
                Op::Logarithm => x.ln().to_bits(),
                Op::HyperbolicTangent => x.tanh().to_bits(),
                Op::Power => x.powf(y).to_bits(),
                Op::IntegerPower => x.powi(b as i32).to_bits(),
                Op::Floor => x.floor().to_bits(),
                Op::Ceiling => x.ceil().to_bits(),
                Op::OfCount => (a as f64).to_bits(),
                Op::ToIndex => x as u64,
            }
        },
        |style: Style, x: Double| -> String {
            let v = f64::from_bits(x.bits);
            match style {
                Style::Shortest => format!("{v}"),
                Style::TwoPlaces => format!("{v:.2}"),
                Style::FourPlaces => format!("{v:.4}"),
            }
        },
    )
}

#[allow(dead_code)]
fn d(x: f64) -> Double {
    Double::from_bits(x.to_bits())
}

#[allow(dead_code)]
fn f(x: Double) -> f64 {
    f64::from_bits(x.bits)
}

fn id(name: &str) -> CanonicalContractId {
    CanonicalContractId(name.into())
}

fn tick(venue: VenueId, contract: &str, bid: f64, ask: f64, ts: i64) -> NormalizedTick {
    NormalizedTick {
        venue,
        contract: id(contract),
        bid: d(bid),
        bid_size: d(10.0),
        ask: d(ask),
        ask_size: d(20.0),
        venue_ts: None,
        receive_ts: Timestamp::from_nanos(ts),
    }
}

#[test]
fn the_last_valid_quote_stands() {
    let mut book = ConsolidatedBook::new();
    book.update(&c(), tick(VenueId::Kalshi, "a", 0.4, 0.5, 1));
    book.update(&c(), tick(VenueId::Kalshi, "a", 0.41, 0.52, 2));
    book.update(&c(), tick(VenueId::Kalshi, "a", f64::NAN, 0.5, 3));
    let quotes = book.quotes(&id("a"));
    assert_eq!(quotes.len(), 1);
    assert_eq!(f(quotes[0].bid), 0.41);
    assert_eq!(book.rejected_ticks(), 1);
    assert_eq!(book.tracked_contracts(), 1);
}

#[test]
fn best_quotes_are_the_best_of_all_venues() {
    let mut book = ConsolidatedBook::new();
    book.update(&c(), tick(VenueId::Kalshi, "a", 0.40, 0.50, 1));
    book.update(&c(), tick(VenueId::Polymarket, "a", 0.45, 0.55, 1));
    book.update(&c(), tick(VenueId::Paper, "a", 0.30, 0.49, 1));
    let bid = book.best_bid(&id("a")).unwrap();
    let ask = book.best_ask(&id("a")).unwrap();
    assert_eq!((bid.venue, f(bid.price)), (VenueId::Polymarket, 0.45));
    assert_eq!((ask.venue, f(ask.price)), (VenueId::Paper, 0.49));
    assert_eq!(f(book.consolidated_mid(&c(), &id("a")).unwrap()), (0.45 + 0.49) / 2.0);
    assert!(book.best_bid(&id("b")).is_none());
}

#[test]
fn of_several_riskless_trades_the_largest_is_found() {
    let mut book = ConsolidatedBook::new();
    book.update(&c(), tick(VenueId::Polymarket, "a", 0.50, 0.55, 1));
    book.update(&c(), tick(VenueId::Kalshi, "a", 0.60, 0.65, 1));
    book.update(&c(), tick(VenueId::Paper, "a", 0.70, 0.75, 1));
    let arb = book.detect_arb(&c(), &id("a")).unwrap();
    assert_eq!((arb.buy_venue, arb.sell_venue), (VenueId::Polymarket, VenueId::Paper));
    assert_eq!((f(arb.buy_price), f(arb.sell_price)), (0.55, 0.70));
    assert_eq!(f(arb.edge), 0.70 - 0.55);
    assert_eq!(f(arb.executable_size), 10.0);
}

#[test]
fn pruning_keeps_what_is_fresh() {
    let mut book = ConsolidatedBook::new();
    book.update(&c(), tick(VenueId::Kalshi, "a", 0.4, 0.5, 0));
    book.update(&c(), tick(VenueId::Polymarket, "a", 0.4, 0.5, 90));
    book.update(&c(), tick(VenueId::Kalshi, "b", 0.4, 0.5, 0));
    book.prune_stale(Timestamp::from_nanos(100), 50);
    assert_eq!(book.quotes(&id("a")).len(), 1);
    assert_eq!(book.quotes(&id("a"))[0].venue, VenueId::Polymarket);
    assert_eq!(book.quotes(&id("b")).len(), 0);
    assert_eq!(book.tracked_contracts(), 1);
}

#[test]
fn a_walk_pays_each_level_its_price() {
    let level = |price: f64, size: f64| DepthLevel { price: d(price), size: d(size) };
    let mut book = ConsolidatedBook::new();
    book.update_depth(BookDepth {
        venue: VenueId::Kalshi,
        contract: id("a"),
        bids: vec![level(0.50, 10.0), level(0.40, 10.0)],
        asks: vec![level(0.60, 10.0), level(0.70, 30.0)],
        receive_ts: Timestamp::from_nanos(0),
    });
    let walked = book.walk_ask(&c(), &id("a"), VenueId::Kalshi, d(20.0)).unwrap();
    assert!((f(walked.avg_price) - 0.65).abs() < 1e-12);
    assert_eq!(f(walked.filled_size), 20.0);
    let walked = book.walk_bid(&c(), &id("a"), VenueId::Kalshi, d(99.0)).unwrap();
    assert!((f(walked.avg_price) - 0.45).abs() < 1e-12);
    assert_eq!(f(walked.filled_size), 20.0);
    assert!(book.walk_ask(&c(), &id("a"), VenueId::Paper, d(1.0)).is_none());
    assert!(book.depth(&id("a"), VenueId::Kalshi).is_some());
}

#[test]
fn a_topic_hands_out_what_it_took_in_its_order() {
    let mut bus: Bus<String> = Bus::new(3);
    for word in ["a", "b", "c", "d", "e"] {
        bus.try_publish(word.to_string());
    }
    assert_eq!((bus.len(), bus.published_count(), bus.dropped_count()), (3, 3, 2));
    assert_eq!(bus.try_recv().as_deref(), Some("a"));
    assert!(bus.try_publish("f".to_string()));
    let rest: Vec<String> = std::iter::from_fn(|| bus.try_recv()).collect();
    assert_eq!(rest, ["b", "c", "f"]);
    assert!(bus.is_empty());
    assert_eq!(bus.published_count() + bus.dropped_count(), 6);
    assert_eq!(bus.capacity(), 3);
}

#[test]
fn the_usual_pipeline_has_room_on_every_topic() {
    let usual = PipelineBusConfig::default();
    let bus = PipelineBus::new(PipelineBusConfig::default());
    assert_eq!(bus.ticks.capacity(), usual.ticks_capacity);
    assert_eq!(bus.order_acks.capacity(), usual.order_acks_capacity);
    assert!(!PipelineBus::default().integrity_violated());
}

#[test]
fn a_walk_leaves_nothing_cheaper_behind() {
    let level = |price: f64, size: f64| DepthLevel { price: d(price), size: d(size) };
    let asks = [level(0.40, 5.0), level(0.45, 5.0), level(0.60, 50.0)];
    let part = BookDepth::walk(&c(), &asks, d(7.0)).unwrap();
    assert_eq!(f(part.filled_size), 7.0);
    // Five at 0.40 and two at 0.45: the cheapest seven there are.
    assert!((f(part.avg_price) - 2.9 / 7.0).abs() < 1e-12);
}

#[test]
fn a_walk_fills_the_smaller_of_what_is_asked_and_what_is_there() {
    let level = |price: f64, size: f64| DepthLevel { price: d(price), size: d(size) };
    let asks = [level(0.40, 5.0), level(0.45, 0.0), level(0.45, 7.5), level(0.60, 50.0)];
    for (target, filled) in [(0.5, 0.5), (12.5, 12.5), (62.5, 62.5), (100.0, 62.5)] {
        let walk = BookDepth::walk(&c(), &asks, d(target)).unwrap();
        assert_eq!(f(walk.filled_size), filled);
    }
    assert!(BookDepth::walk(&c(), &asks, d(0.0)).is_none());
    assert!(BookDepth::walk(&c(), &[level(0.4, 0.0)], d(1.0)).is_none());
    // Every other way of taking ten from these levels costs more.
    let best = f(BookDepth::walk(&c(), &asks, d(10.0)).unwrap().avg_price) * 10.0;
    for first in 0..=5 {
        for second in 0..=7 {
            let rest = 10 - first - second;
            if rest >= 0 {
                let other =
                    0.40 * first as f64 + 0.45 * second as f64 + 0.60 * rest as f64;
                assert!(best <= other + 1e-12, "{first} {second} {rest}");
            }
        }
    }
}

#[test]
fn the_machine_rounds_as_the_laws_on_rounding_ask() {
    let two = |n: i32| f64::from_bits(((1023 + n) as u64) << 52);
    assert_eq!((two(0), two(-53), two(64)), (1.0, f64::EPSILON / 2.0, 18446744073709551616.0));
    for (m, n) in [(-450, -450), (470, 470), (60, 954), (-14, -53)] {
        assert_eq!(two(m) * two(n), two(m + n));
        assert_eq!(two(m) / two(n), two(m - n));
    }
    for m in [-968, 0, 64, 954, 1023] {
        assert_eq!(two(m) + two(m - 54), two(m));
    }
    let below = f64::from_bits(1.0f64.to_bits() - 1);
    for x in [1e-4, 0.3, 0.5, 0.9999, below] {
        assert!(x < x + two(-53) && x - two(-53) < x && 1.0 - x >= two(-53));
        assert_eq!(x.powi(2), x * x);
        assert_eq!(two(60) * x / x, two(60));
        assert_eq!(two(60) * (x + 0.1), two(60) * x + two(60) * 0.1);
    }
    assert_eq!((u64::MAX as f64, 1u64 as f64), (two(64), 1.0));
    let halves: Vec<f64> = (0..200).map(|i| 0.5f64.powf(i as f64 / 7.0)).collect();
    assert!(halves.iter().zip(&halves[1..]).all(|(a, b)| b <= a && *a <= 1.0));
}
