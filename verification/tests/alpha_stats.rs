use parallax::alpha::stats::{beta_binomial_posterior, clamp_probability, normal_cdf, normal_pdf, prob_exceeds};
use parallax::double::{Arithmetic, Double, Op, Style};

#[allow(dead_code)]
fn c() -> Arithmetic {
    Arithmetic::new(
        |op: Op, a: u64, b: u64| -> u64 {
            let x = f64::from_bits(a);
            let y = f64::from_bits(b);
            match op {
                Op::Sum => (x + y).to_bits(),
                Op::Difference => (x - y).to_bits(),
                Op::Product => (x * y).to_bits(),
                Op::Quotient => (x / y).to_bits(),
                Op::SquareRoot => x.sqrt().to_bits(),
                Op::Exponential => x.exp().to_bits(),
                Op::Logarithm => x.ln().to_bits(),
                Op::HyperbolicTangent => x.tanh().to_bits(),
                Op::Power => x.powf(y).to_bits(),
                Op::IntegerPower => x.powi(b as i32).to_bits(),
                Op::Floor => x.floor().to_bits(),
                Op::Ceiling => x.ceil().to_bits(),
                Op::OfCount => (a as f64).to_bits(),
                Op::ToIndex => x as u64,
            }
        },
        |style: Style, x: Double| -> String {
            let v = f64::from_bits(x.bits);
            match style {
                Style::Shortest => format!("{v}"),
                Style::TwoPlaces => format!("{v:.2}"),
                Style::FourPlaces => format!("{v:.4}"),
            }
        },
    )
}

#[allow(dead_code)]
fn d(x: f64) -> Double {
    Double::from_bits(x.to_bits())
}

#[allow(dead_code)]
fn f(x: Double) -> f64 {
    f64::from_bits(x.bits)
}

#[test]
fn normal_cdf_matches_known_values() {
    assert!((f(normal_cdf(&c(), d(0.0))) - 0.5).abs() < 1e-6);
    assert!((f(normal_cdf(&c(), d(1.0))) - 0.8413).abs() < 1e-3);
    assert!((f(normal_cdf(&c(), d(-1.0))) - 0.1587).abs() < 1e-3);
}

#[test]
fn prob_exceeds_is_higher_when_mean_is_further_above_threshold() {
    let near = f(prob_exceeds(&c(), d(10.0), d(2.0), d(9.0)));
    let far = f(prob_exceeds(&c(), d(15.0), d(2.0), d(9.0)));
    assert!(far > near);
}

#[test]
fn normal_pdf_peaks_at_zero_and_integrates_to_roughly_one() {
    assert!(f(normal_pdf(&c(), d(0.0))) > f(normal_pdf(&c(), d(1.0))));
    assert!(f(normal_pdf(&c(), d(0.0))) > f(normal_pdf(&c(), d(-1.0))));
    assert!((f(normal_pdf(&c(), d(0.0))) - 0.3989422804).abs() < 1e-6);
    let mut total = 0.0;
    let step = 0.01;
    let mut z: f64 = -8.0;
    while z <= 8.0 {
        total += f(normal_pdf(&c(), d(z))) * step;
        z += step;
    }
    assert!((total - 1.0).abs() < 1e-3);
}

#[test]
fn normal_pdf_is_symmetric() {
    assert!((f(normal_pdf(&c(), d(1.3))) - f(normal_pdf(&c(), d(-1.3)))).abs() < 1e-12);
}

#[test]
fn beta_binomial_posterior_never_reaches_exactly_zero_or_one() {
    let (mean, _) = beta_binomial_posterior(&c(), d(5.0), d(5.0), d(0.5), d(0.5));
    assert!(
        f(mean) < 1.0,
        "unanimous sample must not report exact certainty"
    );
    let (mean, _) = beta_binomial_posterior(&c(), d(0.0), d(5.0), d(0.5), d(0.5));
    assert!(f(mean) > 0.0);
}

#[test]
fn beta_binomial_posterior_std_dev_shrinks_as_sample_size_grows() {
    let (_, small_std) = beta_binomial_posterior(&c(), d(3.0), d(5.0), d(0.5), d(0.5));
    let (_, large_std) = beta_binomial_posterior(&c(), d(60.0), d(100.0), d(0.5), d(0.5));
    assert!(f(large_std) < f(small_std));
}

#[test]
fn clamp_probability_never_returns_the_extremes() {
    assert!(f(clamp_probability(d(0.0))) > 0.0);
    assert!(f(clamp_probability(d(1.0))) < 1.0);
    assert!((f(clamp_probability(d(0.5))) - 0.5).abs() < 1e-12);
}
