use parallax::double::{Arithmetic, Double, Op, Style};
use parallax::book::CrossVenueArb;
use parallax::cli::demo::{
    demo_backtest, demo_contract_id, demo_events, moved_quote, sample_arb, stale_quote, Quote,
};
use parallax::cli::edge_distribution::{
    apply_jitters, draw_ensemble, jitter_quote, EdgeDistributionReport,
};
use parallax::cli::recorder::{
    interval_secs, recorded_tick, token_candidates, BookScan, Candidate, Field, KalshiMarket,
    PolymarketMarket, TopOfBook,
};
use parallax::sim::backtest::Action;
use parallax::sim::replay::ReplayEvent;
use parallax::sim::report::{BacktestReport, RejectionCount};
use parallax::types::contract::CanonicalContractId;
use parallax::types::orders::{EngineId, ExecError};
use parallax::types::time::Timestamp;
use parallax::types::venue::VenueId;
use parallax::ui::dto::{ArbResponse, BacktestResponse};
use parallax::ui::live::{
    abbreviate, can_abbreviate, first_token, kalshi_listing, kalshi_quote, polymarket_listing,
    polymarket_quote,
};
use rand::{Rng, SeedableRng};
use rand_pcg::Pcg64;

#[allow(dead_code)]
fn c() -> Arithmetic {
    Arithmetic::new(
        |op: Op, a: u64, b: u64| -> u64 {
            let x = f64::from_bits(a);
            let y = f64::from_bits(b);
            match op {
                Op::Sum => (x + y).to_bits(),
                Op::Difference => (x - y).to_bits(),
                Op::Product => (x * y).to_bits(),
                Op::Quotient => (x / y).to_bits(),
                Op::SquareRoot => x.sqrt().to_bits(),
                Op::Exponential => x.exp().to_bits(),
                Op::Logarithm => x.ln().to_bits(),
                Op::HyperbolicTangent => x.tanh().to_bits(),
                Op::Power => x.powf(y).to_bits(),
                Op::IntegerPower => x.powi(b as i32).to_bits(),
                Op::Floor => x.floor().to_bits(),
                Op::Ceiling => x.ceil().to_bits(),
                Op::OfCount => (a as f64).to_bits(),
                Op::ToIndex => x as u64,
            }
        },
        |style: Style, x: Double| -> String {
            let v = f64::from_bits(x.bits);
            match style {
                Style::Shortest => format!("{v}"),
                Style::TwoPlaces => format!("{v:.2}"),
                Style::FourPlaces => format!("{v:.4}"),
            }
        },
    )
}

#[allow(dead_code)]
fn d(x: f64) -> Double {
    Double::from_bits(x.to_bits())
}

#[allow(dead_code)]
fn f(x: Double) -> f64 {
    f64::from_bits(x.bits)
}

fn text(s: &str) -> Field {
    Field::Text(s.into())
}

fn kalshi(ticker: Field, title: Field) -> KalshiMarket {
    KalshiMarket { ticker, title, subtitle: text("sub"), close_time: Field::Absent }
}

fn polymarket(tokens: &str) -> PolymarketMarket {
    PolymarketMarket { question: text("Will it?"), clob_token_ids: text(tokens) }
}

fn top() -> TopOfBook {
    TopOfBook { bid: d(0.4), bid_size: d(1.0), ask: d(0.6), ask_size: d(2.0) }
}

#[test]
fn an_ensemble_is_drawn_by_its_seed() {
    for seed in [0, 1, 7, u64::MAX] {
        let mut rng = Pcg64::seed_from_u64(seed);
        let expected: Vec<i64> = [920, 930, 915, 925, 918]
            .iter()
            .map(|base| base + i64::from(rng.gen_range(-15i32..=15)))
            .collect();
        assert_eq!(draw_ensemble(seed), expected);
    }
    assert_ne!(draw_ensemble(1), draw_ensemble(2));
    assert_eq!(apply_jitters(&[0, 1, -1, 15, -15]), [920, 931, 914, 940, 903]);
}

#[test]
fn a_jittered_quote_stays_in_bounds_and_keeps_a_spread() {
    let noise = jitter_quote(&c(), stale_quote(), d(0.01), d(-0.02));
    assert!((f(noise.bid) - 0.51).abs() < 1e-12 && (f(noise.ask) - 0.53).abs() < 1e-12);
    let low = jitter_quote(&c(), Quote { bid: d(0.0), ask: d(0.0) }, d(-0.02), d(-0.02));
    assert_eq!((f(low.bid), f(low.ask)), (0.01, 0.02));
    let high = jitter_quote(&c(), Quote { bid: d(1.0), ask: d(1.0) }, d(0.02), d(0.02));
    assert_eq!((f(high.bid), f(high.ask)), (0.98, 0.99));
    let crossed = jitter_quote(&c(), Quote { bid: d(0.6), ask: d(0.5) }, d(0.0), d(0.0));
    assert_eq!((f(crossed.bid), f(crossed.ask)), (0.6, 0.6 + 0.01));
    assert_eq!(f(moved_quote().ask), 0.94);
}

#[test]
fn a_percentile_does_not_depend_on_the_order_of_the_runs() {
    let run = |pnl: f64| BacktestReport { realized_pnl: d(pnl), ..Default::default() };
    let mut up = EdgeDistributionReport::new();
    let mut down = EdgeDistributionReport::new();
    for (seed, pnl) in [-3.0, 1.0, 2.0, 8.0].iter().enumerate() {
        up.add_run(&c(), seed as u64, &run(*pnl));
    }
    for (seed, pnl) in [8.0, 2.0, 1.0, -3.0].iter().enumerate() {
        down.add_run(&c(), seed as u64, &run(*pnl));
    }
    for p in [-5.0, 0.0, 10.0, 33.0, 50.0, 100.0, 120.0] {
        assert_eq!(up.percentile(&c(), d(p)), down.percentile(&c(), d(p)));
    }
    assert_eq!((f(up.median(&c())), f(up.mean(&c()))), (1.5, 2.0));
    assert_eq!((up.len(), up.profitable_count()), (4, 3));
}

#[test]
fn a_run_that_lost_an_ack_is_left_out() {
    let mut report = EdgeDistributionReport::new();
    let broken = BacktestReport { bus_integrity_violated: true, ..Default::default() };
    report.add_run(&c(), 9, &broken);
    assert!(report.is_empty());
    assert_eq!(report.excluded_seeds, [9]);
}

#[test]
fn the_demonstration_tells_of_a_stale_and_a_moved_quote() {
    let events = demo_events();
    assert_eq!(events.len(), 3);
    assert!(matches!(events[0], ReplayEvent::Alpha(_)));
    match (&events[1], &events[2]) {
        (ReplayEvent::Tick(stale), ReplayEvent::Tick(moved)) => {
            assert_eq!((stale.venue, f(stale.ask)), (VenueId::Polymarket, 0.55));
            assert_eq!((moved.venue, f(moved.bid)), (VenueId::Kalshi, 0.90));
        }
        _ => panic!("expected two quotes"),
    }
    assert_eq!(demo_contract_id().0, "wx.temp.chicago.gt_869.2026-08-12.nws_official");
    assert!(demo_backtest().risk().is_reconciled());
}

#[test]
fn a_sample_arb_is_found_where_one_bid_is_over_the_other_ask() {
    let quote = |bid: f64, ask: f64| Quote { bid: d(bid), ask: d(ask) };
    let arb = sample_arb(&c(), quote(0.55, 0.60), d(40.0), quote(0.66, 0.70), d(30.0)).unwrap();
    assert_eq!((arb.buy_venue, arb.sell_venue), (VenueId::Polymarket, VenueId::Kalshi));
    assert_eq!((f(arb.edge), f(arb.executable_size)), (0.66 - 0.60, 30.0));
    assert!(sample_arb(&c(), quote(0.5, 0.6), d(1.0), quote(0.5, 0.6), d(1.0)).is_none());
}

#[test]
fn a_search_passes_over_markets_without_a_book() {
    let markets = vec![
        kalshi(Field::Other, text("t")),
        kalshi(text("K1"), text("t")),
        kalshi(text("K2"), text("t")),
    ];
    let mut scan = BookScan::kalshi(Some(&markets)).unwrap();
    assert_eq!(scan.next_market().as_deref(), Some("K1"));
    assert!(scan.on_book(Err("one-sided".into()), Timestamp::from_nanos(1)).is_none());
    assert_eq!(scan.next_market().as_deref(), Some("K2"));
    let tick = scan.on_book(Ok(top()), Timestamp::from_nanos(2)).unwrap();
    assert_eq!(tick.contract.0, "raw.kalshi.K2");
    assert_eq!((tick.venue, tick.receive_ts), (VenueId::Kalshi, Timestamp::from_nanos(2)));
    assert!(BookScan::kalshi(None).is_err() && BookScan::kalshi(Some(&vec![])).is_err());
}

#[test]
fn a_search_gives_up_with_the_last_error() {
    let markets = vec![kalshi(text("K1"), text("t"))];
    let mut scan = BookScan::kalshi(Some(&markets)).unwrap();
    scan.next_market();
    scan.on_book(Err("one-sided".into()), Timestamp::from_nanos(1));
    assert_eq!(scan.next_market(), None);
    assert_eq!(
        scan.give_up(),
        "none of the open KXHIGHCHI markets had a two-sided book (last error: one-sided)"
    );
}

#[test]
fn token_ids_are_read_as_a_list_of_texts() {
    let markets = vec![polymarket("[]"), polymarket("oops"), polymarket("[\"t\\u0031\", \"t2\"]")];
    let mut scan = BookScan::polymarket(Some(&markets)).unwrap();
    assert_eq!(scan.next_market().as_deref(), Some("t1"));
    scan.on_book(Err("empty".into()), Timestamp::from_nanos(1));
    assert_eq!(scan.next_market().as_deref(), Some("t2"));
    scan.on_book(Err("empty".into()), Timestamp::from_nanos(1));
    assert_eq!(scan.next_market(), None);
    let mut broken = BookScan::polymarket(Some(&vec![polymarket("oops")])).unwrap();
    assert_eq!(broken.next_market(), None);
    assert!(broken.give_up().contains("market had unparseable clobTokenIds: oops"));
    assert!(BookScan::polymarket(None).is_err());
    assert!(matches!(
        token_candidates("x", Ok(vec!["t".into()])).as_slice(),
        [Candidate::Ask(id)] if id == "t"
    ));
}

#[test]
fn a_recorded_tick_names_the_market_as_the_venue_does() {
    let tick = recorded_tick(VenueId::Polymarket, "77", top(), Timestamp::from_nanos(3));
    assert_eq!(tick.contract.0, "raw.polymarket.77");
    assert_eq!((f(tick.bid), f(tick.ask_size)), (0.4, 2.0));
    assert_eq!(tick.venue_ts, None);
}

#[test]
fn a_setting_of_zero_seconds_is_no_setting() {
    assert_eq!(interval_secs(None), 10);
    assert_eq!(interval_secs(Some(0)), 10);
    assert_eq!(interval_secs(Some(3)), 3);
}

#[test]
fn a_kalshi_market_shows_its_title_or_else_its_ticker() {
    let listing = kalshi_listing(Some(&vec![kalshi(text("K1"), text("High?"))])).unwrap();
    assert_eq!((listing.title.as_str(), listing.close_time.as_str()), ("High?", "unknown"));
    let untitled = kalshi_listing(Some(&vec![kalshi(text("K1"), Field::Absent)])).unwrap();
    assert_eq!(untitled.title, "sub");
    let odd = kalshi_listing(Some(&vec![kalshi(text("K1"), Field::Other)])).unwrap();
    assert_eq!(odd.title, "K1");
    let quote = kalshi_quote(&listing, top());
    assert_eq!(quote.detail, "K1 · closes unknown");
    assert!(quote.source_url.ends_with("/markets/K1/orderbook"));
    assert_eq!(
        kalshi_listing(Some(&vec![kalshi(Field::Absent, text("t"))])).unwrap_err(),
        "market missing a ticker"
    );
}

#[test]
fn a_polymarket_token_is_shown_by_its_ends() {
    let markets = vec![polymarket("[]"), polymarket("[\"1234567890123\", \"2\"]")];
    let listing = polymarket_listing(Some(&markets)).unwrap();
    assert_eq!(listing.token_id, "1234567890123");
    let quote = polymarket_quote(&listing, top());
    assert_eq!(quote.detail, "token 123456…0123");
    assert_eq!(quote.label, "Will it?");
    assert_eq!(quote.source_url, "https://clob.polymarket.com/book?token_id=1234567890123");
    assert!(polymarket_listing(Some(&vec![polymarket("[]")])).is_err());
    let broken = polymarket_listing(Some(&vec![polymarket("oops")])).unwrap_err();
    assert!(broken.starts_with("could not parse clobTokenIds: "));
    assert_eq!(first_token(Ok(vec![])).unwrap_err(), "clobTokenIds was empty");
}

#[test]
fn a_token_is_cut_between_characters_only() {
    for s in ["", "ab", "abcdef", "äöü", "12345ä", "1234567ä"] {
        let whole = s.len();
        let fits = s.is_char_boundary(6.min(whole)) && s.is_char_boundary(whole.saturating_sub(4));
        assert_eq!(can_abbreviate(s), fits, "{s}");
        if fits {
            let expected =
                format!("token {}…{}", &s[..6.min(whole)], &s[whole.saturating_sub(4)..]);
            assert_eq!(abbreviate(s), expected);
        }
    }
}

#[test]
fn responses_show_what_they_are_made_from() {
    assert!(!ArbResponse::from_arb(None).found);
    let response = ArbResponse::from_arb(Some(CrossVenueArb {
        contract: CanonicalContractId("c".into()),
        buy_venue: VenueId::Kalshi,
        buy_price: d(0.4),
        sell_venue: VenueId::Paper,
        sell_price: d(0.5),
        edge: d(0.1),
        executable_size: d(7.0),
    }));
    assert_eq!(response.buy_venue.as_deref(), Some("kalshi"));
    assert_eq!(response.sell_venue.as_deref(), Some("paper"));
    assert_eq!(response.edge.map(f), Some(0.1));

    let report = BacktestReport {
        fills: 3,
        realized_pnl: d(10.0),
        unrealized_pnl: d(2.0),
        fees_paid: d(3.0),
        open_positions: vec![(
            VenueId::Kalshi,
            CanonicalContractId("c".into()),
            d(5.0),
            d(0.5),
        )],
        rejection_histogram: vec![RejectionCount { reason: "FeedStale".into(), count: 4 }],
        ..Default::default()
    };
    let response = BacktestResponse::from_report(&c(), &report);
    assert_eq!((response.fills, f(response.gross_pnl), f(response.net_pnl)), (3, 12.0, 9.0));
    assert_eq!(response.open_positions[0].venue, "kalshi");
    assert_eq!(response.rejection_histogram[0].count, 4);
}

#[test]
fn the_demonstration_has_the_three_engines_in_the_order_of_their_urgency() {
    let mut backtest = demo_backtest();
    let mut engines: Vec<EngineId> = Vec::new();
    for event in demo_events() {
        let mut action = backtest.on_event(&c(), event);
        let mut turn: Vec<EngineId> = Vec::new();
        loop {
            action = match action {
                Action::AdvanceMarket(_) => backtest.on_fills(&c(), Vec::new()),
                Action::Submit(intent) => {
                    if turn.last() != Some(&intent.engine) {
                        turn.push(intent.engine);
                    }
                    let lost = ExecError::Indeterminate { venue: intent.venue };
                    backtest.on_submission(&c(), Err(lost))
                }
                Action::Idle => break,
            };
        }
        if turn.len() > engines.len() {
            engines = turn;
        }
    }
    assert_eq!(
        engines,
        [EngineId::LiquiditySniping, EngineId::StatArb, EngineId::MarketMaking]
    );
}
