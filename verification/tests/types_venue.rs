use parallax::double::{Arithmetic, Double, Op, Style};
use parallax::types::venue::{FeeModel, SettlementModel, VenueCapabilities, VenueId};

#[allow(dead_code)]
fn c() -> Arithmetic {
    Arithmetic::new(
        |op: Op, a: u64, b: u64| -> u64 {
            let x = f64::from_bits(a);
            let y = f64::from_bits(b);
            match op {
                Op::Sum => (x + y).to_bits(),
                Op::Difference => (x - y).to_bits(),
                Op::Product => (x * y).to_bits(),
                Op::Quotient => (x / y).to_bits(),
                Op::SquareRoot => x.sqrt().to_bits(),
                Op::Exponential => x.exp().to_bits(),
                Op::Logarithm => x.ln().to_bits(),
                Op::HyperbolicTangent => x.tanh().to_bits(),
                Op::Power => x.powf(y).to_bits(),
                Op::IntegerPower => x.powi(b as i32).to_bits(),
                Op::Floor => x.floor().to_bits(),
                Op::Ceiling => x.ceil().to_bits(),
                Op::OfCount => (a as f64).to_bits(),
                Op::ToIndex => x as u64,
            }
        },
        |style: Style, x: Double| -> String {
            let v = f64::from_bits(x.bits);
            match style {
                Style::Shortest => format!("{v}"),
                Style::TwoPlaces => format!("{v:.2}"),
                Style::FourPlaces => format!("{v:.4}"),
            }
        },
    )
}

#[allow(dead_code)]
fn d(x: f64) -> Double {
    Double::from_bits(x.to_bits())
}

#[allow(dead_code)]
fn f(x: Double) -> f64 {
    f64::from_bits(x.bits)
}

#[test]
fn fee_peaks_at_a_fifty_cent_contract() {
    let model = FeeModel {
        maker_rate: d(0.0),
        taker_rate: d(0.07),
        round_up_to: d(0.0),
    };
    let at_50c = f(model.fee(&c(), false, d(100.0), d(0.50)));
    let at_10c = f(model.fee(&c(), false, d(100.0), d(0.10)));
    let at_90c = f(model.fee(&c(), false, d(100.0), d(0.90)));
    assert!(at_50c > at_10c);
    assert!(at_50c > at_90c);
}

#[test]
fn fee_rounds_up_to_the_configured_unit() {
    let model = FeeModel {
        maker_rate: d(0.0),
        taker_rate: d(0.07),
        round_up_to: d(0.01),
    };
    let fee = f(model.fee(&c(), false, d(1.0), d(0.50)));
    assert!((fee - 0.02).abs() < 1e-9, "fee was {fee}");
}

#[test]
fn maker_fee_uses_the_maker_rate() {
    let model = FeeModel::kalshi_default();
    let maker = f(model.fee(&c(), true, d(100.0), d(0.50)));
    let taker = f(model.fee(&c(), false, d(100.0), d(0.50)));
    assert!(maker < taker);
}

fn caps(min_tick: f64, min_order_size: f64, rate_limit: u32) -> VenueCapabilities {
    VenueCapabilities {
        venue: VenueId::Kalshi,
        settlement: SettlementModel::CentralLimitOrderBook,
        min_tick: d(min_tick),
        min_order_size: d(min_order_size),
        fee_model: FeeModel::kalshi_default(),
        rate_limit_per_sec: rate_limit,
    }
}

#[test]
fn validate_rejects_zero_tick_or_zero_rate_limit() {
    assert!(caps(0.0, 1.0, 10).validate(&c()).is_err());
    assert!(caps(0.01, 1.0, 0).validate(&c()).is_err());
}

#[test]
fn validate_accepts_reasonable_capabilities() {
    assert!(caps(0.01, 1.0, 10).validate(&c()).is_ok());
}
