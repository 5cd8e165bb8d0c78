use parallax::double::{Arithmetic, Double, Op, Style};
use parallax::types::contract::CanonicalContractId;
use parallax::types::orders::{ClientOrderId, EngineId, ExecError, OrderIntent, OrderType, Outcome, Side};
use parallax::types::time::Timestamp;
use parallax::types::venue::VenueId;

#[allow(dead_code)]
fn c() -> Arithmetic {
    Arithmetic::new(
        |op: Op, a: u64, b: u64| -> u64 {
            let x = f64::from_bits(a);
            let y = f64::from_bits(b);
            match op {
                Op::Sum => (x + y).to_bits(),
                Op::Difference => (x - y).to_bits(),
                Op::Product => (x * y).to_bits(),
                Op::Quotient => (x / y).to_bits(),
                Op::SquareRoot => x.sqrt().to_bits(),
                Op::Exponential => x.exp().to_bits(),
                Op::Logarithm => x.ln().to_bits(),
                Op::HyperbolicTangent => x.tanh().to_bits(),
                Op::Power => x.powf(y).to_bits(),
                Op::IntegerPower => x.powi(b as i32).to_bits(),
                Op::Floor => x.floor().to_bits(),
                Op::Ceiling => x.ceil().to_bits(),
                Op::OfCount => (a as f64).to_bits(),
                Op::ToIndex => x as u64,
            }
        },
        |style: Style, x: Double| -> String {
            let v = f64::from_bits(x.bits);
            match style {
                Style::Shortest => format!("{v}"),
                Style::TwoPlaces => format!("{v:.2}"),
                Style::FourPlaces => format!("{v:.4}"),
            }
        },
    )
}

#[allow(dead_code)]
fn d(x: f64) -> Double {
    Double::from_bits(x.to_bits())
}

#[allow(dead_code)]
fn f(x: Double) -> f64 {
    f64::from_bits(x.bits)
}

fn intent(price: f64, size: f64, created_at_ns: i64) -> OrderIntent {
    OrderIntent {
        venue: VenueId::Kalshi,
        contract: CanonicalContractId("wx.temp.chicago.gt_869.2026-08-12.nws_official".into()),
        outcome: Outcome::Yes,
        side: Side::Buy,
        price: d(price),
        size: d(size),
        order_type: OrderType::Limit,
        engine: EngineId::MarketMaking,
        created_at: Timestamp::from_nanos(created_at_ns),
    }
}

#[test]
fn validate_rejects_nan_price() {
    assert!(intent(f64::NAN, 10.0, 0).validate(&c()).is_err());
}

#[test]
fn validate_rejects_nonpositive_size() {
    assert!(intent(0.5, 0.0, 0).validate(&c()).is_err());
    assert!(intent(0.5, -1.0, 0).validate(&c()).is_err());
}

#[test]
fn validate_accepts_a_well_formed_intent() {
    assert!(intent(0.5, 10.0, 0).validate(&c()).is_ok());
}

#[test]
fn risk_notional_charges_a_sell_by_its_actual_max_loss() {
    let mut buy = intent(0.98, 500.0, 0);
    buy.side = Side::Buy;
    let mut sell = intent(0.02, 500.0, 0);
    sell.side = Side::Sell;
    assert!((f(buy.risk_notional(&c())) - f(sell.risk_notional(&c()))).abs() < 1e-9);
}

#[test]
fn client_order_id_is_deterministic_for_the_same_intent() {
    let a = intent(0.5, 10.0, 123);
    let b = intent(0.5, 10.0, 123);
    assert_eq!(ClientOrderId::derive(&c(), &a), ClientOrderId::derive(&c(), &b));
}

#[test]
fn client_order_id_differs_for_a_genuinely_different_intent() {
    let a = intent(0.5, 10.0, 123);
    let b = intent(0.5, 10.0, 456);
    assert_ne!(ClientOrderId::derive(&c(), &a), ClientOrderId::derive(&c(), &b));
}

#[test]
fn indeterminate_is_the_only_unsafe_retry() {
    assert!(!ExecError::Indeterminate {
        venue: VenueId::Kalshi
    }
    .is_safely_retryable());
    assert!(ExecError::Connection {
        venue: VenueId::Kalshi,
        message: "x".into()
    }
    .is_safely_retryable());
    assert!(ExecError::RateLimited {
        venue: VenueId::Kalshi,
        retry_after_ms: 100
    }
    .is_safely_retryable());
}
