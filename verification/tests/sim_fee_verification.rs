use parallax::double::{Arithmetic, Double, Op, Style};
use parallax::sim::fee_verification::{FeeCheckOutcome, FeeVerifier};

#[allow(dead_code)]
fn c() -> Arithmetic {
    Arithmetic::new(
        |op: Op, a: u64, b: u64| -> u64 {
            let x = f64::from_bits(a);
            let y = f64::from_bits(b);
            match op {
                Op::Sum => (x + y).to_bits(),
                Op::Difference => (x - y).to_bits(),
                Op::Product => (x * y).to_bits(),
                Op::Quotient => (x / y).to_bits(),
                Op::SquareRoot => x.sqrt().to_bits(),
                Op::Exponential => x.exp().to_bits(),
                Op::Logarithm => x.ln().to_bits(),
                Op::HyperbolicTangent => x.tanh().to_bits(),
                Op::Power => x.powf(y).to_bits(),
                Op::IntegerPower => x.powi(b as i32).to_bits(),
                Op::Floor => x.floor().to_bits(),
                Op::Ceiling => x.ceil().to_bits(),
                Op::OfCount => (a as f64).to_bits(),
                Op::ToIndex => x as u64,
            }
        },
        |style: Style, x: Double| -> String {
            let v = f64::from_bits(x.bits);
            match style {
                Style::Shortest => format!("{v}"),
                Style::TwoPlaces => format!("{v:.2}"),
                Style::FourPlaces => format!("{v:.4}"),
            }
        },
    )
}

#[allow(dead_code)]
fn d(x: f64) -> Double {
    Double::from_bits(x.to_bits())
}

#[allow(dead_code)]
fn f(x: Double) -> f64 {
    f64::from_bits(x.bits)
}

#[test]
fn a_matching_fee_within_tolerance_is_a_match() {
    let mut verifier = FeeVerifier::new(d(0.0001), 3);
    assert_eq!(verifier.record(&c(), d(1.2300), d(1.2301)), FeeCheckOutcome::Match);
}

#[test]
fn a_single_mismatch_is_reported_but_does_not_halt() {
    let mut verifier = FeeVerifier::new(d(0.0001), 3);
    match verifier.record(&c(), d(1.00), d(1.50)) {
        FeeCheckOutcome::Mismatch { consecutive, .. } => assert_eq!(consecutive, 1),
        other => panic!("expected Mismatch, got {other:?}"),
    }
}

#[test]
fn a_persistent_mismatch_halts_after_the_configured_streak() {
    let mut verifier = FeeVerifier::new(d(0.0001), 3);
    assert!(matches!(
        verifier.record(&c(), d(1.00), d(1.50)),
        FeeCheckOutcome::Mismatch { consecutive: 1, .. }
    ));
    assert!(matches!(
        verifier.record(&c(), d(1.00), d(1.50)),
        FeeCheckOutcome::Mismatch { consecutive: 2, .. }
    ));
    assert!(matches!(
        verifier.record(&c(), d(1.00), d(1.50)),
        FeeCheckOutcome::PersistentMismatch { consecutive: 3, .. }
    ));
}

#[test]
fn a_match_in_between_resets_the_streak() {
    let mut verifier = FeeVerifier::new(d(0.0001), 3);
    verifier.record(&c(), d(1.00), d(1.50));
    verifier.record(&c(), d(1.00), d(1.50));
    assert_eq!(verifier.record(&c(), d(1.00), d(1.00)), FeeCheckOutcome::Match);
    match verifier.record(&c(), d(1.00), d(1.50)) {
        FeeCheckOutcome::Mismatch { consecutive, .. } => assert_eq!(consecutive, 1),
        other => panic!("expected a fresh streak of 1, got {other:?}"),
    }
}

#[test]
fn zero_or_negative_configuration_does_not_panic_or_loop() {
    let mut verifier = FeeVerifier::new(d(-1.0), 0);
    match verifier.record(&c(), d(1.00), d(1.00)) {
        FeeCheckOutcome::Match => {}
        other => panic!("exact match should still match with clamped tolerance, got {other:?}"),
    }
    match verifier.record(&c(), d(1.00), d(1.01)) {
        FeeCheckOutcome::PersistentMismatch { consecutive: 1, .. } => {}
        other => panic!("halt_after=1 should halt immediately, got {other:?}"),
    }
}
