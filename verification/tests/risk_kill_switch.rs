use parallax::double::{Arithmetic, Double, Op, Style};
use parallax::risk::kill_switch::KillSwitch;
use parallax::types::contract::CanonicalContractId;
use parallax::types::venue::VenueId;

#[allow(dead_code)]
fn c() -> Arithmetic {
    Arithmetic::new(
        |op: Op, a: u64, b: u64| -> u64 {
            let x = f64::from_bits(a);
            let y = f64::from_bits(b);
            match op {
                Op::Sum => (x + y).to_bits(),
                Op::Difference => (x - y).to_bits(),
                Op::Product => (x * y).to_bits(),
                Op::Quotient => (x / y).to_bits(),
                Op::SquareRoot => x.sqrt().to_bits(),
                Op::Exponential => x.exp().to_bits(),
                Op::Logarithm => x.ln().to_bits(),
                Op::HyperbolicTangent => x.tanh().to_bits(),
                Op::Power => x.powf(y).to_bits(),
                Op::IntegerPower => x.powi(b as i32).to_bits(),
                Op::Floor => x.floor().to_bits(),
                Op::Ceiling => x.ceil().to_bits(),
                Op::OfCount => (a as f64).to_bits(),
                Op::ToIndex => x as u64,
            }
        },
        |style: Style, x: Double| -> String {
            let v = f64::from_bits(x.bits);
            match style {
                Style::Shortest => format!("{v}"),
                Style::TwoPlaces => format!("{v:.2}"),
                Style::FourPlaces => format!("{v:.4}"),
            }
        },
    )
}

#[allow(dead_code)]
fn d(x: f64) -> Double {
    Double::from_bits(x.to_bits())
}

#[allow(dead_code)]
fn f(x: Double) -> f64 {
    f64::from_bits(x.bits)
}

#[test]
fn active_trips_reports_every_scope_that_is_tripped() {
    let mut ks = KillSwitch::new();
    assert!(ks.active_trips().is_empty());

    ks.trip_venue(VenueId::Kalshi, "error rate");
    ks.trip_contract(CanonicalContractId("x".into()), "stale");
    assert_eq!(ks.active_trips().len(), 2);

    ks.trip_global("kill everything");
    assert_eq!(ks.active_trips().len(), 3);
}

#[test]
fn reset_all_clears_every_scope() {
    let mut ks = KillSwitch::new();
    ks.trip_global("x");
    ks.trip_venue(VenueId::Kalshi, "y");
    ks.reset_all();
    assert!(ks.active_trips().is_empty());
    assert!(!ks.is_global_tripped());
}
