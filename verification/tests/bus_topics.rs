use parallax::bus::topics::{PipelineBus, PipelineBusConfig};
use parallax::double::{Arithmetic, Double, Op, Style};
use parallax::types::contract::CanonicalContractId;
use parallax::types::market::NormalizedTick;
use parallax::types::orders::{AckStatus, OrderAck, OrderId};
use parallax::types::time::Timestamp;
use parallax::types::venue::VenueId;

#[allow(dead_code)]
fn c() -> Arithmetic {
    Arithmetic::new(
        |op: Op, a: u64, b: u64| -> u64 {
            let x = f64::from_bits(a);
            let y = f64::from_bits(b);
            match op {
                Op::Sum => (x + y).to_bits(),
                Op::Difference => (x - y).to_bits(),
                Op::Product => (x * y).to_bits(),
                Op::Quotient => (x / y).to_bits(),
                Op::SquareRoot => x.sqrt().to_bits(),
                Op::Exponential => x.exp().to_bits(),
                Op::Logarithm => x.ln().to_bits(),
                Op::HyperbolicTangent => x.tanh().to_bits(),
                Op::Power => x.powf(y).to_bits(),
                Op::IntegerPower => x.powi(b as i32).to_bits(),
                Op::Floor => x.floor().to_bits(),
                Op::Ceiling => x.ceil().to_bits(),
                Op::OfCount => (a as f64).to_bits(),
                Op::ToIndex => x as u64,
            }
        },
        |style: Style, x: Double| -> String {
            let v = f64::from_bits(x.bits);
            match style {
                Style::Shortest => format!("{v}"),
                Style::TwoPlaces => format!("{v:.2}"),
                Style::FourPlaces => format!("{v:.4}"),
            }
        },
    )
}

#[allow(dead_code)]
fn d(x: f64) -> Double {
    Double::from_bits(x.to_bits())
}

#[allow(dead_code)]
fn f(x: Double) -> f64 {
    f64::from_bits(x.bits)
}

#[test]
fn integrity_is_fine_while_only_lossy_topics_drop() {
    let mut bus = PipelineBus::new(PipelineBusConfig {
        raw_events_capacity: 1,
        ticks_capacity: 1,
        fair_values_capacity: 1,
        order_intents_capacity: 1,
        order_acks_capacity: 1,
    });
    assert!(bus.ticks.try_publish(normalized_tick_stub()));
    assert!(!bus.ticks.try_publish(normalized_tick_stub()));
    assert!(!bus.integrity_violated());
}

#[test]
fn integrity_is_violated_once_an_order_ack_drops() {
    let mut bus = PipelineBus::new(PipelineBusConfig {
        raw_events_capacity: 1,
        ticks_capacity: 1,
        fair_values_capacity: 1,
        order_intents_capacity: 1,
        order_acks_capacity: 1,
    });
    assert!(bus.order_acks.try_publish(order_ack_stub()));
    assert!(!bus.order_acks.try_publish(order_ack_stub()));
    assert!(bus.integrity_violated());
}

fn normalized_tick_stub() -> NormalizedTick {
    NormalizedTick {
        venue: VenueId::Kalshi,
        contract: CanonicalContractId("x".into()),
        bid: d(0.5),
        bid_size: d(1.0),
        ask: d(0.6),
        ask_size: d(1.0),
        venue_ts: None,
        receive_ts: Timestamp::from_nanos(0),
    }
}

fn order_ack_stub() -> OrderAck {
    OrderAck {
        order_id: OrderId("x".into()),
        venue: VenueId::Kalshi,
        status: AckStatus::Accepted,
        ts: Timestamp::from_nanos(0),
    }
}
