use parallax::book::ConsolidatedBook;
use parallax::double::{Arithmetic, Double, Op, Style};
use parallax::types::contract::{CanonicalContractId, CanonicalContractSpec, Direction, EventClass};
use parallax::types::market::{BookDepth, DepthLevel, NormalizedTick};
use parallax::types::time::Timestamp;
use parallax::types::venue::VenueId;

#[allow(dead_code)]
fn c() -> Arithmetic {
    Arithmetic::new(
        |op: Op, a: u64, b: u64| -> u64 {
            let x = f64::from_bits(a);
            let y = f64::from_bits(b);
            match op {
                Op::Sum => (x + y).to_bits(),
                Op::Difference => (x - y).to_bits(),
                Op::Product => (x * y).to_bits(),
                Op::Quotient => (x / y).to_bits(),
                Op::SquareRoot => x.sqrt().to_bits(),
                Op::Exponential => x.exp().to_bits(),
                Op::Logarithm => x.ln().to_bits(),
                Op::HyperbolicTangent => x.tanh().to_bits(),
                Op::Power => x.powf(y).to_bits(),
                Op::IntegerPower => x.powi(b as i32).to_bits(),
                Op::Floor => x.floor().to_bits(),
                Op::Ceiling => x.ceil().to_bits(),
                Op::OfCount => (a as f64).to_bits(),
                Op::ToIndex => x as u64,
            }
        },
        |style: Style, x: Double| -> String {
            let v = f64::from_bits(x.bits);
            match style {
                Style::Shortest => format!("{v}"),
                Style::TwoPlaces => format!("{v:.2}"),
                Style::FourPlaces => format!("{v:.4}"),
            }
        },
    )
}

#[allow(dead_code)]
fn d(x: f64) -> Double {
    Double::from_bits(x.to_bits())
}

#[allow(dead_code)]
fn f(x: Double) -> f64 {
    f64::from_bits(x.bits)
}

fn contract() -> CanonicalContractId {
    CanonicalContractSpec {
        event_class: EventClass("wx.temp".into()),
        location: "chicago".into(),
        threshold: 869,
        direction: Direction::GreaterThan,
        resolution_window: "2026-08-12".into(),
        resolution_source: "nws_official".into(),
    }
    .to_id()
}

fn tick(venue: VenueId, bid: f64, ask: f64) -> NormalizedTick {
    NormalizedTick {
        venue,
        contract: contract(),
        bid: d(bid),
        bid_size: d(100.0),
        ask: d(ask),
        ask_size: d(100.0),
        venue_ts: None,
        receive_ts: Timestamp::from_nanos(0),
    }
}

#[test]
fn consolidated_mid_uses_best_of_both_venues() {
    let mut book = ConsolidatedBook::new();
    book.update(&c(), tick(VenueId::Polymarket, 0.60, 0.63));
    book.update(&c(), tick(VenueId::Kalshi, 0.65, 0.70));
    assert_eq!(f(book.best_bid(&contract()).unwrap().price), 0.65);
    assert_eq!(f(book.best_ask(&contract()).unwrap().price), 0.63);
    assert_eq!(f(book.consolidated_mid(&c(), &contract()).unwrap()), 0.64);
}

#[test]
fn detects_riskless_cross_venue_arb() {
    let mut book = ConsolidatedBook::new();
    book.update(&c(), tick(VenueId::Polymarket, 0.55, 0.60));
    book.update(&c(), tick(VenueId::Kalshi, 0.65, 0.72));
    let arb = book
        .detect_arb(&c(), &contract())
        .expect("arb should be detected");
    assert_eq!(arb.buy_venue, VenueId::Polymarket);
    assert_eq!(arb.sell_venue, VenueId::Kalshi);
    assert_eq!(arb.contract, contract());
    assert_eq!(f(arb.executable_size), 100.0);
    assert!((f(arb.edge) - 0.05).abs() < 1e-9);
}

#[test]
fn no_arb_when_books_are_consistent() {
    let mut book = ConsolidatedBook::new();
    book.update(&c(), tick(VenueId::Polymarket, 0.60, 0.66));
    book.update(&c(), tick(VenueId::Kalshi, 0.61, 0.65));
    assert!(book.detect_arb(&c(), &contract()).is_none());
}

#[test]
fn walk_ask_uses_the_named_venues_depth_not_top_of_book() {
    let mut book = ConsolidatedBook::new();
    book.update_depth(BookDepth {
        venue: VenueId::Polymarket,
        contract: contract(),
        bids: vec![DepthLevel {
            price: d(0.58),
            size: d(20.0),
        }],
        asks: vec![
            DepthLevel {
                price: d(0.60),
                size: d(40.0),
            },
            DepthLevel {
                price: d(0.63),
                size: d(60.0),
            },
        ],
        receive_ts: Timestamp::from_nanos(0),
    });

    let result = book
        .walk_ask(&c(), &contract(), VenueId::Polymarket, d(70.0))
        .unwrap();
    assert_eq!(f(result.filled_size), 70.0);
    let expected = (40.0 * 0.60 + 30.0 * 0.63) / 70.0;
    assert!((f(result.avg_price) - expected).abs() < 1e-9);
    assert!(book.walk_ask(&c(), &contract(), VenueId::Kalshi, d(10.0)).is_none());
}

#[test]
fn prune_stale_also_drops_stale_depth() {
    let mut book = ConsolidatedBook::new();
    book.update_depth(BookDepth {
        venue: VenueId::Polymarket,
        contract: contract(),
        bids: vec![],
        asks: vec![DepthLevel {
            price: d(0.6),
            size: d(10.0),
        }],
        receive_ts: Timestamp::from_nanos(0),
    });
    book.prune_stale(Timestamp::from_nanos(10_000_000_000), 1_000_000_000);
    assert!(book.depth(&contract(), VenueId::Polymarket).is_none());
}

#[test]
fn prune_stale_removes_old_venue_quotes_only() {
    let mut book = ConsolidatedBook::new();
    let mut fresh = tick(VenueId::Polymarket, 0.6, 0.62);
    fresh.receive_ts = Timestamp::from_nanos(1_000_000_000);
    let mut stale = tick(VenueId::Kalshi, 0.6, 0.62);
    stale.receive_ts = Timestamp::from_nanos(0);
    book.update(&c(), fresh);
    book.update(&c(), stale);

    book.prune_stale(Timestamp::from_nanos(1_000_000_000), 500_000_000);
    let remaining: Vec<_> = book.quotes(&contract()).iter().map(|t| t.venue).collect();
    assert_eq!(remaining, vec![VenueId::Polymarket]);
}

#[test]
fn prune_stale_removes_the_contract_entry_entirely_once_empty() {
    let mut book = ConsolidatedBook::new();
    book.update(&c(), tick(VenueId::Polymarket, 0.6, 0.62));
    assert_eq!(book.tracked_contracts(), 1);

    book.prune_stale(Timestamp::from_nanos(10_000_000_000), 1);
    assert_eq!(
        book.tracked_contracts(),
        0,
        "an emptied-out contract entry must not linger forever"
    );
}

#[test]
fn a_nan_tick_is_rejected_and_counted_instead_of_entering_the_book() {
    let mut book = ConsolidatedBook::new();
    let mut bad = tick(VenueId::Polymarket, f64::NAN, 0.60);
    bad.contract = contract();
    book.update(&c(), bad);
    assert_eq!(book.rejected_ticks(), 1);
    assert!(book.quotes(&contract()).is_empty());
}

#[test]
fn a_valid_tick_after_a_rejected_one_is_still_accepted() {
    let mut book = ConsolidatedBook::new();
    book.update(&c(), tick(VenueId::Polymarket, f64::NAN, 0.60));
    book.update(&c(), tick(VenueId::Polymarket, 0.55, 0.60));
    assert_eq!(book.rejected_ticks(), 1);
    assert_eq!(book.quotes(&contract()).len(), 1);
}
