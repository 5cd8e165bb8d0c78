use parallax::cli::demo::{demo_backtest, moved_quote, scenario_events, stale_quote};
use parallax::cli::edge_distribution::{draw_ensemble, jitter_quote, EdgeDistributionReport};
use parallax::double::{Arithmetic, Double, Op, Style};
use parallax::sim::backtest::{Action, Backtest};
use parallax::sim::replay::ReplayEvent;
use parallax::sim::report::BacktestReport;
use parallax::types::market::NormalizedTick;
use parallax::types::orders::{
    AckStatus, ExecError, OrderAck, OrderId, OrderIntent, OrderType, Side,
};
use rand::{Rng, SeedableRng};
use rand_pcg::Pcg64;

#[allow(dead_code)]
fn c() -> Arithmetic {
    Arithmetic::new(
        |op: Op, a: u64, b: u64| -> u64 {
            let x = f64::from_bits(a);
            let y = f64::from_bits(b);
            match op {
                Op::Sum => (x + y).to_bits(),
                Op::Difference => (x - y).to_bits(),
                Op::Product => (x * y).to_bits(),
                Op::Quotient => (x / y).to_bits(),
                Op::SquareRoot => x.sqrt().to_bits(),
                Op::Exponential => x.exp().to_bits(),
                Op::Logarithm => x.ln().to_bits(),
                Op::HyperbolicTangent => x.tanh().to_bits(),
                Op::Power => x.powf(y).to_bits(),
                Op::IntegerPower => x.powi(b as i32).to_bits(),
                Op::Floor => x.floor().to_bits(),
                Op::Ceiling => x.ceil().to_bits(),
                Op::OfCount => (a as f64).to_bits(),
                Op::ToIndex => x as u64,
            }
        },
        |style: Style, x: Double| -> String {
            let v = f64::from_bits(x.bits);
            match style {
                Style::Shortest => format!("{v}"),
                Style::TwoPlaces => format!("{v:.2}"),
                Style::FourPlaces => format!("{v:.4}"),
            }
        },
    )
}

#[allow(dead_code)]
fn d(x: f64) -> Double {
    Double::from_bits(x.to_bits())
}

#[allow(dead_code)]
fn f(x: Double) -> f64 {
    f64::from_bits(x.bits)
}

/// Fills what crosses the last quote of a venue, as far as its size goes, and rests the remainder
/// of a limit order.
struct SimpleVenue {
    quotes: Vec<NormalizedTick>,
    orders: u64,
}

impl SimpleVenue {
    fn new() -> SimpleVenue {
        SimpleVenue { quotes: Vec::new(), orders: 0 }
    }

    fn advance(&mut self, tick: NormalizedTick) -> Vec<OrderAck> {
        self.quotes.retain(|q| q.venue != tick.venue);
        self.quotes.push(tick);
        Vec::new()
    }

    fn submit(&mut self, intent: &OrderIntent) -> Result<OrderAck, ExecError> {
        let quote = match self.quotes.iter().find(|q| q.venue == intent.venue) {
            Some(q) => q,
            None => {
                return Err(ExecError::Rejected {
                    venue: intent.venue,
                    reason: "no quote".into(),
                })
            }
        };
        let (price, size) = match intent.side {
            Side::Buy => (f(quote.ask), f(quote.ask_size)),
            Side::Sell => (f(quote.bid), f(quote.bid_size)),
        };
        let crosses = match intent.side {
            Side::Buy => f(intent.price) >= price,
            Side::Sell => f(intent.price) <= price,
        };
        let wanted = f(intent.size);
        let status = if !crosses && intent.order_type == OrderType::Limit {
            AckStatus::Accepted
        } else if !crosses {
            AckStatus::Canceled
        } else if size >= wanted {
            AckStatus::Filled { qty: intent.size, price: d(price) }
        } else {
            AckStatus::PartiallyFilled {
                filled_qty: d(size),
                remaining_qty: d(wanted - size),
                price: d(price),
            }
        };
        self.orders += 1;
        Ok(OrderAck {
            order_id: OrderId(format!("o{}", self.orders)),
            venue: intent.venue,
            status,
            ts: intent.created_at,
        })
    }
}

fn run(backtest: &mut Backtest, events: Vec<ReplayEvent>) -> BacktestReport {
    let arithmetic = c();
    let mut venue = SimpleVenue::new();
    for event in events {
        let mut action = backtest.on_event(&arithmetic, event);
        loop {
            action = match action {
                Action::AdvanceMarket(tick) => {
                    let acks = venue.advance(tick);
                    backtest.on_fills(&arithmetic, acks)
                }
                Action::Submit(intent) => {
                    let answer = venue.submit(&intent);
                    backtest.on_submission(&arithmetic, answer)
                }
                Action::Idle => break,
            };
        }
    }
    backtest.finalize_report(&arithmetic)
}

const QUOTE_JITTER: f64 = 0.02;

/// One seeded draw of the scenario: the ensemble first, then the noise on each side of each quote.
fn run_seeded_scenario(seed: u64) -> BacktestReport {
    let mut rng = Pcg64::seed_from_u64(seed);
    for _ in 0..5 {
        let _: i32 = rng.gen_range(-15..=15);
    }
    let mut noise = || d(rng.gen_range(-QUOTE_JITTER..=QUOTE_JITTER));
    let stale = jitter_quote(&c(), stale_quote(), noise(), noise());
    let moved = jitter_quote(&c(), moved_quote(), noise(), noise());
    let mut backtest = demo_backtest();
    run(&mut backtest, scenario_events(draw_ensemble(seed), stale, moved))
}

#[test]
fn the_same_seed_always_produces_the_same_report() {
    let a = run_seeded_scenario(7);
    let b = run_seeded_scenario(7);
    assert_eq!(f(a.net_pnl(&c())), f(b.net_pnl(&c())));
    assert_eq!(a.fills, b.fills);
    assert_eq!(a.orders_rejected_by_risk, b.orders_rejected_by_risk);
}

#[test]
fn different_seeds_are_not_all_identical() {
    let mut net_pnls = Vec::new();
    for seed in 0..20 {
        net_pnls.push(f(run_seeded_scenario(seed).net_pnl(&c())));
    }
    assert!(
        net_pnls.windows(2).any(|w| w[0] != w[1]),
        "expected at least one differing net_pnl across 20 seeds, got {net_pnls:?}"
    );
}

#[test]
fn percentile_matches_a_hand_checked_distribution() {
    let report = EdgeDistributionReport {
        net_pnls: vec![d(1.0), d(2.0), d(3.0), d(4.0), d(5.0), d(6.0), d(7.0), d(8.0), d(9.0), d(10.0)],
        excluded_seeds: vec![],
    };
    assert_eq!(f(report.median(&c())), 5.5);
    assert!((f(report.percentile(&c(), d(10.0))) - 1.9).abs() < 1e-9);
    assert_eq!(f(report.percentile(&c(), d(0.0))), 1.0);
    assert_eq!(f(report.percentile(&c(), d(100.0))), 10.0);
}

#[test]
fn profitable_count_only_counts_strictly_positive_runs() {
    let report = EdgeDistributionReport {
        net_pnls: vec![d(-1.0), d(0.0), d(0.5), d(3.0)],
        excluded_seeds: vec![],
    };
    assert_eq!(report.profitable_count(), 2);
}

#[test]
fn an_empty_distribution_does_not_panic() {
    let report = EdgeDistributionReport {
        net_pnls: vec![],
        excluded_seeds: vec![],
    };
    assert_eq!(f(report.mean(&c())), 0.0);
    assert_eq!(f(report.median(&c())), 0.0);
    assert_eq!(report.profitable_count(), 0);
}
