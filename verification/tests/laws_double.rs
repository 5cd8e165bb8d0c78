use parallax::double::{Arithmetic, Double, Op, Style};

#[allow(dead_code)]
fn c() -> Arithmetic {
    Arithmetic::new(
        |op: Op, a: u64, b: u64| -> u64 {
            let x = f64::from_bits(a);
            let y = f64::from_bits(b);
            match op {
                Op::Sum => (x + y).to_bits(),
                Op::Difference => (x - y).to_bits(),
                Op::Product => (x * y).to_bits(),
                Op::Quotient => (x / y).to_bits(),
                Op::SquareRoot => x.sqrt().to_bits(),
                Op::Exponential => x.exp().to_bits(),
                Op::Logarithm => x.ln().to_bits(),
                Op::HyperbolicTangent => x.tanh().to_bits(),
                Op::Power => x.powf(y).to_bits(),
                Op::IntegerPower => x.powi(b as i32).to_bits(),
                Op::Floor => x.floor().to_bits(),
                Op::Ceiling => x.ceil().to_bits(),
                Op::OfCount => (a as f64).to_bits(),
                Op::ToIndex => x as u64,
            }
        },
        |style: Style, x: Double| -> String {
            let v = f64::from_bits(x.bits);
            match style {
                Style::Shortest => format!("{v}"),
                Style::TwoPlaces => format!("{v:.2}"),
                Style::FourPlaces => format!("{v:.4}"),
            }
        },
    )
}

#[allow(dead_code)]
fn d(x: f64) -> Double {
    Double::from_bits(x.to_bits())
}

#[allow(dead_code)]
fn f(x: Double) -> f64 {
    f64::from_bits(x.bits)
}

#[test]
fn order_of_doubles_is_that_of_the_numbers() {
    let xs = [f64::NEG_INFINITY, -2.5, -0.0, 0.0, 1e-300, 1.0, f64::MAX, f64::INFINITY];
    for a in xs {
        for b in xs {
            assert_eq!(d(a).lt(d(b)), a < b);
            assert_eq!(d(a).le(d(b)), a <= b);
            assert_eq!(d(a).gt(d(b)), a > b);
            assert_eq!(d(a).ge(d(b)), a >= b);
            assert_eq!(d(a).same(d(b)), a == b);
            assert_eq!(d(a).total_lt(d(b)), a.total_cmp(&b).is_lt());
            assert_eq!(f(d(a).larger(d(b))), a.max(b));
            assert_eq!(f(d(a).smaller(d(b))), a.min(b));
        }
    }
}

#[test]
fn nan_clears_no_comparison() {
    let nan = d(f64::NAN);
    for x in [f64::NAN, -1.0, 0.0, f64::INFINITY] {
        assert!(!nan.lt(d(x)) && !d(x).lt(nan));
        assert!(!nan.le(d(x)) && !d(x).le(nan));
        assert!(!nan.same(d(x)));
    }
    assert_eq!(f(nan.larger(d(3.0))), 3.0);
    assert_eq!(f(d(3.0).smaller(nan)), 3.0);
    assert!(nan.is_nan() && !nan.is_finite());
}

#[test]
fn clamping_ends_inside_the_interval() {
    assert_eq!(f(d(-1.0).clamp(d(0.0), d(1.0))), 0.0);
    assert_eq!(f(d(0.25).clamp(d(0.0), d(1.0))), 0.25);
    assert_eq!(f(d(7.0).clamp(d(0.0), d(1.0))), 1.0);
    assert!(d(f64::NAN).clamp(d(0.0), d(1.0)).is_nan());
}

#[test]
fn sign_operations_work_on_the_bits() {
    assert_eq!(f(d(2.0).neg()), -2.0);
    assert_eq!(d(0.0).neg().bits, (-0.0f64).to_bits());
    assert_eq!(f(d(-3.5).abs()), 3.5);
    assert_eq!(f(d(-3.5).signum()), -1.0);
    assert_eq!(f(d(0.0).signum()), 1.0);
    assert!(d(f64::NAN).signum().is_nan());
    assert!(!d(f64::INFINITY).is_finite());
}

#[test]
fn arithmetic_is_what_the_caller_supplies() {
    let a = c();
    assert_eq!(f(a.plus(d(0.1), d(0.2))), 0.1 + 0.2);
    assert_eq!(f(a.minus(d(0.3), d(0.1))), 0.3 - 0.1);
    assert_eq!(f(a.times(d(1.5), d(-2.0))), -3.0);
    assert_eq!(f(a.over(d(1.0), d(3.0))), 1.0 / 3.0);
    assert_eq!(f(a.sqrt(d(2.0))), 2.0f64.sqrt());
    assert_eq!(f(a.integer_power(d(3.0), 2)), 9.0);
    assert_eq!(f(a.of_count(7)), 7.0);
    assert_eq!(f(a.of_signed(-7)), -7.0);
    assert_eq!(f(a.of_signed(i64::MIN)), i64::MIN as f64);
    assert_eq!(a.to_index(d(3.9)), 3);
    assert_eq!(f(a.floor(d(-0.5))), -1.0);
    assert_eq!(f(a.ceil(d(0.2))), 1.0);
}

#[test]
fn numbers_are_printed_in_the_style_asked_for() {
    assert_eq!(c().text(Style::Shortest, d(0.5)), "0.5");
    assert_eq!(c().text(Style::TwoPlaces, d(0.5)), "0.50");
    assert_eq!(c().text(Style::FourPlaces, d(-1.23456)), "-1.2346");
}
