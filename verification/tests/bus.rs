use parallax::bus::queue::Bus;
use parallax::double::{Arithmetic, Double, Op, Style};

#[allow(dead_code)]
fn c() -> Arithmetic {
    Arithmetic::new(
        |op: Op, a: u64, b: u64| -> u64 {
            let x = f64::from_bits(a);
            let y = f64::from_bits(b);
            match op {
                Op::Sum => (x + y).to_bits(),
                Op::Difference => (x - y).to_bits(),
                Op::Product => (x * y).to_bits(),
                Op::Quotient => (x / y).to_bits(),
                Op::SquareRoot => x.sqrt().to_bits(),
                Op::Exponential => x.exp().to_bits(),
                Op::Logarithm => x.ln().to_bits(),
                Op::HyperbolicTangent => x.tanh().to_bits(),
                Op::Power => x.powf(y).to_bits(),
                Op::IntegerPower => x.powi(b as i32).to_bits(),
                Op::Floor => x.floor().to_bits(),
                Op::Ceiling => x.ceil().to_bits(),
                Op::OfCount => (a as f64).to_bits(),
                Op::ToIndex => x as u64,
            }
        },
        |style: Style, x: Double| -> String {
            let v = f64::from_bits(x.bits);
            match style {
                Style::Shortest => format!("{v}"),
                Style::TwoPlaces => format!("{v:.2}"),
                Style::FourPlaces => format!("{v:.4}"),
            }
        },
    )
}

#[allow(dead_code)]
fn d(x: f64) -> Double {
    Double::from_bits(x.to_bits())
}

#[allow(dead_code)]
fn f(x: Double) -> f64 {
    f64::from_bits(x.bits)
}

#[test]
fn zero_capacity_is_clamped_instead_of_panicking() {
    let mut bus: Bus<u32> = Bus::new(0);
    assert_eq!(bus.capacity(), 1);
    assert!(bus.try_publish(1));
    assert!(!bus.try_publish(2));
    assert_eq!(bus.dropped_count(), 1);
}

#[test]
fn publish_and_drain_preserve_order() {
    let mut bus: Bus<u32> = Bus::new(4);
    for i in 0..4 {
        assert!(bus.try_publish(i));
    }
    assert!(!bus.try_publish(99));
    assert_eq!(bus.dropped_count(), 1);

    for i in 0..4 {
        assert_eq!(bus.try_recv(), Some(i));
    }
    assert_eq!(bus.try_recv(), None);
}
