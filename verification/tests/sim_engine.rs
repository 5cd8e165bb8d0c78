use parallax::alpha::payload::{Payload, WeatherPayload};
use parallax::alpha::sources::weather::WeatherEnsembleSource;
use parallax::double::{Arithmetic, Double, Op, Style};
use parallax::risk::gate::RiskLimits;
use parallax::sim::backtest::{Action, Backtest};
use parallax::sim::replay::ReplayEvent;
use parallax::sim::report::BacktestReport;
use parallax::strategy::engines::sniping::{LiquiditySnipingEngine, SnipingConfig};
use parallax::strategy::engines::stat_arb::{StatArbConfig, StatArbEngine};
use parallax::types::alpha::{AlphaEventKind, RawEvent};
use parallax::types::contract::{CanonicalContractId, CanonicalContractSpec, Direction, EventClass};
use parallax::types::market::NormalizedTick;
use parallax::types::orders::{
    AckStatus, ExecError, OrderAck, OrderId, OrderIntent, OrderType, Side,
};
use parallax::types::time::Timestamp;
use parallax::types::venue::{FeeModel, VenueId};

#[allow(dead_code)]
fn c() -> Arithmetic {
    Arithmetic::new(
        |op: Op, a: u64, b: u64| -> u64 {
            let x = f64::from_bits(a);
            let y = f64::from_bits(b);
            match op {
                Op::Sum => (x + y).to_bits(),
                Op::Difference => (x - y).to_bits(),
                Op::Product => (x * y).to_bits(),
                Op::Quotient => (x / y).to_bits(),
                Op::SquareRoot => x.sqrt().to_bits(),
                Op::Exponential => x.exp().to_bits(),
                Op::Logarithm => x.ln().to_bits(),
                Op::HyperbolicTangent => x.tanh().to_bits(),
                Op::Power => x.powf(y).to_bits(),
                Op::IntegerPower => x.powi(b as i32).to_bits(),
                Op::Floor => x.floor().to_bits(),
                Op::Ceiling => x.ceil().to_bits(),
                Op::OfCount => (a as f64).to_bits(),
                Op::ToIndex => x as u64,
            }
        },
        |style: Style, x: Double| -> String {
            let v = f64::from_bits(x.bits);
            match style {
                Style::Shortest => format!("{v}"),
                Style::TwoPlaces => format!("{v:.2}"),
                Style::FourPlaces => format!("{v:.4}"),
            }
        },
    )
}

#[allow(dead_code)]
fn d(x: f64) -> Double {
    Double::from_bits(x.to_bits())
}

#[allow(dead_code)]
fn f(x: Double) -> f64 {
    f64::from_bits(x.bits)
}

fn contract() -> CanonicalContractId {
    CanonicalContractSpec {
        event_class: EventClass("wx.temp".into()),
        location: "chicago".into(),
        threshold: 869,
        direction: Direction::GreaterThan,
        resolution_window: "2026-08-12".into(),
        resolution_source: "nws_official".into(),
    }
    .to_id()
}

/// Fills what crosses the last quote of a venue, as far as its size goes, and rests the remainder
/// of a limit order.
struct SimpleVenue {
    quotes: Vec<NormalizedTick>,
    orders: u64,
}

impl SimpleVenue {
    fn new() -> SimpleVenue {
        SimpleVenue { quotes: Vec::new(), orders: 0 }
    }

    fn advance(&mut self, tick: NormalizedTick) -> Vec<OrderAck> {
        self.quotes.retain(|q| q.venue != tick.venue);
        self.quotes.push(tick);
        Vec::new()
    }

    fn submit(&mut self, intent: &OrderIntent) -> Result<OrderAck, ExecError> {
        let quote = match self.quotes.iter().find(|q| q.venue == intent.venue) {
            Some(q) => q,
            None => {
                return Err(ExecError::Rejected {
                    venue: intent.venue,
                    reason: "no quote".into(),
                })
            }
        };
        let (price, size) = match intent.side {
            Side::Buy => (f(quote.ask), f(quote.ask_size)),
            Side::Sell => (f(quote.bid), f(quote.bid_size)),
        };
        let crosses = match intent.side {
            Side::Buy => f(intent.price) >= price,
            Side::Sell => f(intent.price) <= price,
        };
        let wanted = f(intent.size);
        let status = if !crosses && intent.order_type == OrderType::Limit {
            AckStatus::Accepted
        } else if !crosses {
            AckStatus::Canceled
        } else if size >= wanted {
            AckStatus::Filled { qty: intent.size, price: d(price) }
        } else {
            AckStatus::PartiallyFilled {
                filled_qty: d(size),
                remaining_qty: d(wanted - size),
                price: d(price),
            }
        };
        self.orders += 1;
        Ok(OrderAck {
            order_id: OrderId(format!("o{}", self.orders)),
            venue: intent.venue,
            status,
            ts: intent.created_at,
        })
    }
}

fn run(backtest: &mut Backtest, events: Vec<ReplayEvent>) -> BacktestReport {
    let arithmetic = c();
    let mut venue = SimpleVenue::new();
    for event in events {
        let mut action = backtest.on_event(&arithmetic, event);
        loop {
            action = match action {
                Action::AdvanceMarket(tick) => {
                    let acks = venue.advance(tick);
                    backtest.on_fills(&arithmetic, acks)
                }
                Action::Submit(intent) => {
                    let answer = venue.submit(&intent);
                    backtest.on_submission(&arithmetic, answer)
                }
                Action::Idle => break,
            };
        }
    }
    backtest.finalize_report(&arithmetic)
}

#[test]
fn stale_cheap_quote_after_bullish_weather_update_gets_bought_and_reported() {
    let mut backtest = Backtest::new(
        RiskLimits::default(),
        FeeModel::default(),
        vec![Box::new(WeatherEnsembleSource::new("hrrr"))],
        vec![
            Box::new(LiquiditySnipingEngine::new(SnipingConfig::default())),
            Box::new(StatArbEngine::new(StatArbConfig::default())),
        ],
    );
    backtest.register_contract(
        contract(),
        CanonicalContractSpec {
            event_class: EventClass("wx.temp".into()),
            location: "chicago".into(),
            threshold: 869,
            direction: Direction::GreaterThan,
            resolution_window: "2026-08-12".into(),
            resolution_source: "nws_official".into(),
        }
        .cluster_key(),
    );

    let weather_update = RawEvent {
        source: "hrrr".into(),
        kind: AlphaEventKind::Weather,
        publish_ts: None,
        receive_ts: Timestamp::from_nanos(0),
        payload: Payload {
            weather: Some(WeatherPayload {
                contract: contract().0,
                threshold_tenths: 869,
                direction: Some("gt".into()),
                upper_tenths: None,
                ensemble_forecast_tenths: vec![920, 930, 915, 925, 918],
            }),
            ..Payload::unknown()
        },
    };

    let stale_quote = NormalizedTick {
        venue: VenueId::Polymarket,
        contract: contract(),
        bid: d(0.50),
        bid_size: d(50.0),
        ask: d(0.55),
        ask_size: d(50.0),
        venue_ts: None,
        receive_ts: Timestamp::from_nanos(1),
    };

    let events = vec![
        ReplayEvent::Alpha(weather_update),
        ReplayEvent::Tick(stale_quote),
    ];
    let report = run(&mut backtest, events);

    assert_eq!(report.ticks_processed, 1);
    assert_eq!(report.alpha_events_processed, 1);
    assert!(
        report.orders_proposed > 0,
        "expected at least one order proposal"
    );
    assert!(report.fills > 0, "expected the mispriced ask to get bought");
    assert!(f(report.gross_notional_traded) > 0.0);

    let net = f(backtest.risk().position_qty(VenueId::Polymarket, &contract()));
    assert!(
        net > 0.0,
        "expected a net long position after buying the cheap ask, got {net}"
    );
}
