use parallax::double::{Arithmetic, Double, Op, Style};
use parallax::types::validate::{finite, non_negative, positive, probability};

#[allow(dead_code)]
fn c() -> Arithmetic {
    Arithmetic::new(
        |op: Op, a: u64, b: u64| -> u64 {
            let x = f64::from_bits(a);
            let y = f64::from_bits(b);
            match op {
                Op::Sum => (x + y).to_bits(),
                Op::Difference => (x - y).to_bits(),
                Op::Product => (x * y).to_bits(),
                Op::Quotient => (x / y).to_bits(),
                Op::SquareRoot => x.sqrt().to_bits(),
                Op::Exponential => x.exp().to_bits(),
                Op::Logarithm => x.ln().to_bits(),
                Op::HyperbolicTangent => x.tanh().to_bits(),
                Op::Power => x.powf(y).to_bits(),
                Op::IntegerPower => x.powi(b as i32).to_bits(),
                Op::Floor => x.floor().to_bits(),
                Op::Ceiling => x.ceil().to_bits(),
                Op::OfCount => (a as f64).to_bits(),
                Op::ToIndex => x as u64,
            }
        },
        |style: Style, x: Double| -> String {
            let v = f64::from_bits(x.bits);
            match style {
                Style::Shortest => format!("{v}"),
                Style::TwoPlaces => format!("{v:.2}"),
                Style::FourPlaces => format!("{v:.4}"),
            }
        },
    )
}

#[allow(dead_code)]
fn d(x: f64) -> Double {
    Double::from_bits(x.to_bits())
}

#[allow(dead_code)]
fn f(x: Double) -> f64 {
    f64::from_bits(x.bits)
}

#[test]
fn nan_and_infinity_fail_every_helper() {
    for bad in [f64::NAN, f64::INFINITY, f64::NEG_INFINITY] {
        assert!(finite(&c(), "x", d(bad)).is_err());
        assert!(probability(&c(), "x", d(bad)).is_err());
        assert!(positive(&c(), "x", d(bad)).is_err());
        assert!(non_negative(&c(), "x", d(bad)).is_err());
    }
}

#[test]
fn probability_rejects_out_of_range_finite_values() {
    assert!(probability(&c(), "x", d(1.5)).is_err());
    assert!(probability(&c(), "x", d(-0.1)).is_err());
    assert!(probability(&c(), "x", d(0.0)).is_ok());
    assert!(probability(&c(), "x", d(1.0)).is_ok());
}

#[test]
fn positive_rejects_zero() {
    assert!(positive(&c(), "x", d(0.0)).is_err());
    assert!(positive(&c(), "x", d(1e-12)).is_ok());
}
