//! Numerical helpers shared by the alpha sources.
use vstd::prelude::*;
use crate::double::{Arithmetic, Double, HALF, ONE, ZERO};

verus! {

/// 0.254829592
pub const ERF_A1: u64 = 0x3FD0_4F20_C6EC_5A7E;

/// -0.284496736
pub const ERF_A2: u64 = 0xBFD2_3531_CC3C_1469;

/// 1.421413741
pub const ERF_A3: u64 = 0x3FF6_BE1C_55BA_E157;

/// -1.453152027
pub const ERF_A4: u64 = 0xBFF7_401C_5701_4C39;

/// 1.061405429
pub const ERF_A5: u64 = 0x3FF0_FB84_4255_A12D;

/// 0.3275911
pub const ERF_P: u64 = 0x3FD4_F740_A93D_7B8C;

/// The square root of 2.
pub const SQRT_2: u64 = 0x3FF6_A09E_667F_3BCD;

/// Twice pi.
pub const TWO_PI: u64 = 0x4019_21FB_5444_2D18;

/// -0.5
pub const MINUS_HALF: u64 = 0xBFE0_0000_0000_0000;

/// 1e-9
pub const TINY: u64 = 0x3E11_2E0B_E826_D695;

/// The approximation of the error function by Abramowitz and Stegun, formula 7.1.26.
pub open spec fn erf_of(c: &Arithmetic, x: Double) -> Double {
    let sign = if x.lt(Double::from_bits(ZERO)) {
        Double::from_bits(ONE).neg()
    } else {
        Double::from_bits(ONE)
    };
    let m = x.abs();
    let one = Double::from_bits(ONE);
    let t = c.over(one, c.plus(one, c.times(Double::from_bits(ERF_P), m)));
    let q4 = c.plus(c.times(Double::from_bits(ERF_A5), t), Double::from_bits(ERF_A4));
    let q3 = c.plus(c.times(q4, t), Double::from_bits(ERF_A3));
    let q2 = c.plus(c.times(q3, t), Double::from_bits(ERF_A2));
    let q1 = c.plus(c.times(q2, t), Double::from_bits(ERF_A1));
    let y = c.minus(one, c.times(c.times(q1, t), c.exp(c.times(m.neg(), m))));
    c.times(sign, y)
}

fn erf(c: &Arithmetic, x: Double) -> (r: Double)
    ensures
        r == erf_of(c, x),
{
    let one = Double::from_bits(ONE);
    let sign = if x.lt(Double::from_bits(ZERO)) {
        one.neg()
    } else {
        one
    };
    let m = x.abs();
    let t = c.over(one, c.plus(one, c.times(Double::from_bits(ERF_P), m)));
    let q4 = c.plus(c.times(Double::from_bits(ERF_A5), t), Double::from_bits(ERF_A4));
    let q3 = c.plus(c.times(q4, t), Double::from_bits(ERF_A3));
    let q2 = c.plus(c.times(q3, t), Double::from_bits(ERF_A2));
    let q1 = c.plus(c.times(q2, t), Double::from_bits(ERF_A1));
    let y = c.minus(one, c.times(c.times(q1, t), c.exp(c.times(m.neg(), m))));
    c.times(sign, y)
}

/// The distribution function of the standard normal.
pub open spec fn cdf_of(c: &Arithmetic, z: Double) -> Double {
    c.times(
        Double::from_bits(HALF),
        c.plus(Double::from_bits(ONE), erf_of(c, c.over(z, Double::from_bits(SQRT_2)))),
    )
}

/// The distribution function of the standard normal.
pub fn normal_cdf(c: &Arithmetic, z: Double) -> (r: Double)
    ensures
        r == cdf_of(c, z),
{
    c.times(
        Double::from_bits(HALF),
        c.plus(Double::from_bits(ONE), erf(c, c.over(z, Double::from_bits(SQRT_2)))),
    )
}

/// The density of the standard normal.
pub open spec fn pdf_of(c: &Arithmetic, z: Double) -> Double {
    c.over(
        c.exp(c.times(c.times(Double::from_bits(MINUS_HALF), z), z)),
        c.sqrt(Double::from_bits(TWO_PI)),
    )
}

/// The density of the standard normal: how steep the distribution function is at `z`.
pub fn normal_pdf(c: &Arithmetic, z: Double) -> (r: Double)
    ensures
        r == pdf_of(c, z),
{
    c.over(
        c.exp(c.times(c.times(Double::from_bits(MINUS_HALF), z), z)),
        c.sqrt(Double::from_bits(TWO_PI)),
    )
}

/// The probability that a normal variable exceeds a threshold.
pub open spec fn exceeds_of(
    c: &Arithmetic,
    mean: Double,
    std: Double,
    threshold: Double,
) -> Double {
    cdf_of(c, c.over(c.minus(mean, threshold), std.larger(Double::from_bits(TINY))))
}

/// The probability that a normal variable exceeds a threshold.
pub fn prob_exceeds(c: &Arithmetic, mean: Double, std: Double, threshold: Double) -> (r: Double)
    ensures
        r == exceeds_of(c, mean, std, threshold),
{
    normal_cdf(c, c.over(c.minus(mean, threshold), std.larger(Double::from_bits(TINY))))
}

/// 1e-4. No probability is ever reported nearer to 0 or 1 than this.
pub const PROB_EPSILON: u64 = 0x3F1A_36E2_EB1C_432D;

/// 1 - 1e-4
pub const PROB_CEILING: u64 = 0x3FEF_FF2E_48E8_A71E;

/// `p` held away from certainty in either direction.
#[verifier::allow_in_spec]
pub fn clamp_probability(p: Double) -> Double
    returns
        p.clamp(Double::from_bits(PROB_EPSILON), Double::from_bits(PROB_CEILING)),
{
    p.clamp(Double::from_bits(PROB_EPSILON), Double::from_bits(PROB_CEILING))
}

/// A clamped probability is never 0, never 1, and is `p` itself where that is allowed.
pub proof fn law_clamp_probability_never_certain(p: Double)
    requires
        !p.is_nan(),
    ensures
        clamp_probability(p).gt(Double::from_bits(ZERO)),
        clamp_probability(p).lt(Double::from_bits(ONE)),
        Double::from_bits(PROB_EPSILON).le(p) && p.le(Double::from_bits(PROB_CEILING))
            ==> clamp_probability(p) == p,
{
}

/// Mean and standard deviation of the Beta-Binomial posterior.
pub open spec fn posterior_of(
    c: &Arithmetic,
    successes: Double,
    n: Double,
    prior_alpha: Double,
    prior_beta: Double,
) -> (Double, Double) {
    let zero = Double::from_bits(ZERO);
    let k = successes.clamp(zero, n.larger(zero));
    let a = c.plus(prior_alpha, k);
    let b = c.plus(prior_beta, c.minus(n, k).larger(zero));
    let sum = c.plus(a, b);
    let mean = c.over(a, sum);
    let variance = c.over(
        c.times(a, b),
        c.times(c.integer_power(sum, 2), c.plus(sum, Double::from_bits(ONE))),
    );
    (clamp_probability(mean), c.sqrt(variance.larger(zero)))
}

/// Mean and standard deviation of the Beta-Binomial posterior for `successes` out of `n`
/// under a `Beta(prior_alpha, prior_beta)` prior. The mean never reaches 0 or 1.
pub fn beta_binomial_posterior(
    c: &Arithmetic,
    successes: Double,
    n: Double,
    prior_alpha: Double,
    prior_beta: Double,
) -> (r: (Double, Double))
    ensures
        r == posterior_of(c, successes, n, prior_alpha, prior_beta),
{
    let zero = Double::from_bits(ZERO);
    let k = successes.clamp(zero, n.larger(zero));
    let a = c.plus(prior_alpha, k);
    let b = c.plus(prior_beta, c.minus(n, k).larger(zero));
    let sum = c.plus(a, b);
    let mean = c.over(a, sum);
    let variance = c.over(
        c.times(a, b),
        c.times(c.integer_power(sum, 2), c.plus(sum, Double::from_bits(ONE))),
    );
    (clamp_probability(mean), c.sqrt(variance.larger(zero)))
}

/// The sum of a row of numbers, from the left.
pub open spec fn total(c: &Arithmetic, xs: Seq<Double>) -> Double
    decreases xs.len(),
{
    if xs.len() == 0 {
        Double::from_bits(ZERO)
    } else {
        c.plus(total(c, xs.drop_last()), xs.last())
    }
}

/// The sum of a row of numbers, from the left.
pub fn sum(c: &Arithmetic, xs: &Vec<Double>) -> (r: Double)
    ensures
        r == total(c, xs@),
{
    let mut acc = Double::from_bits(ZERO);
    let mut i: usize = 0;
    while i < xs.len()
        invariant
            i <= xs.len(),
            acc == total(c, xs@.take(i as int)),
        decreases xs.len() - i,
    {
        assert(xs@.take(i + 1).drop_last() == xs@.take(i as int));
        acc = c.plus(acc, xs[i]);
        i += 1;
    }
    assert(xs@.take(i as int) == xs@);
    acc
}

/// The sum of the squared distances from `mean`, from the left.
pub open spec fn squares(c: &Arithmetic, xs: Seq<Double>, mean: Double) -> Double
    decreases xs.len(),
{
    if xs.len() == 0 {
        Double::from_bits(ZERO)
    } else {
        c.plus(
            squares(c, xs.drop_last(), mean),
            c.integer_power(c.minus(xs.last(), mean), 2),
        )
    }
}

/// The sum of the squared distances from `mean`, from the left.
pub fn sum_of_squares(c: &Arithmetic, xs: &Vec<Double>, mean: Double) -> (r: Double)
    ensures
        r == squares(c, xs@, mean),
{
    let mut acc = Double::from_bits(ZERO);
    let mut i: usize = 0;
    while i < xs.len()
        invariant
            i <= xs.len(),
            acc == squares(c, xs@.take(i as int), mean),
        decreases xs.len() - i,
    {
        assert(xs@.take(i + 1).drop_last() == xs@.take(i as int));
        acc = c.plus(acc, c.integer_power(c.minus(xs[i], mean), 2));
        i += 1;
    }
    assert(xs@.take(i as int) == xs@);
    acc
}

} // verus!
