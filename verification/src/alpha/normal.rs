//! What the normal distribution must give, whatever approximates it: its two tails share one, far
//! above is near certain, and far below is next to impossible.
use vstd::prelude::*;
use crate::alpha::payload::ReferenceDistancePayload;
use crate::alpha::source::AlphaSource;
use crate::alpha::sources::econ::{outlook, priced, EconNowcastSource};
use crate::alpha::sources::reference_distance::{
    log_returns, ReferenceDistanceSource, MIN_SIGMA, MIN_TAU,
};
use crate::alpha::stats::{
    cdf_of, clamp_probability, erf_of, exceeds_of, ERF_A1, ERF_A2, ERF_A3, ERF_A4, ERF_A5, ERF_P,
    SQRT_2, TINY,
};
use crate::double::{Arithmetic, Double, HALF, ONE, ZERO};
use crate::rounding::{
    gap, law_exact_orders, law_powers_are_ordered, lemma_cancel, lemma_difference_near,
    lemma_exact_power, lemma_product_near, lemma_quotient_near, lemma_size, lemma_sum_near, two_to,
    unit, EXPONENT,
};
use crate::types::alpha::RawEvent;
use crate::types::contract::{CanonicalContractId, Direction};

verus! {

/// The sizes of two numbers bound the size of their product.
proof fn lemma_product_size(c: &Arithmetic, x: Double, y: Double, j: int, k: int)
    requires
        c.is_accurate(),
        -400 <= j <= 400,
        -400 <= k <= 400,
        x.abs().le(two_to(j)),
        y.abs().le(two_to(k)),
    ensures
        c.times(x, y).abs().le(two_to(j + k)),
        c.times(x, y).is_finite(),
        gap(c.times(x, y).exact() * unit(), x.exact() * y.exact()) <= two_to(j + k - 53).exact()
            * unit(),
{
    law_powers_are_ordered(j, j);
    law_powers_are_ordered(k, k);
    lemma_size(x, two_to(j));
    lemma_size(y, two_to(k));
    lemma_exact_power(j);
    lemma_exact_power(k);
    lemma_exact_power(0);
    lemma_exact_power(j + k);
    vstd::arithmetic::power2::lemma_pow2_adds((j + 1074) as nat, (k + 1074) as nat);
    vstd::arithmetic::power2::lemma_pow2_adds((j + k + 1074) as nat, 1074);
    let (a, b, m, n, u) = (x.exact(), y.exact(), two_to(j).exact(), two_to(k).exact(), unit());
    law_powers_are_ordered(0, 0);
    assert(m * n == two_to(j + k).exact() * u);
    assert(gap(a * b, 0) <= m * n) by (nonlinear_arith)
        requires
            -m <= a <= m,
            -n <= b <= n,
    ;
    lemma_product_near(c, x, y, j + k);
}

/// Two numbers of a size have a sum of twice that size.
proof fn lemma_sum_size(c: &Arithmetic, x: Double, y: Double, k: int)
    requires
        c.is_accurate(),
        -400 <= k <= 400,
        x.abs().le(two_to(k)),
        y.abs().le(two_to(k)),
    ensures
        c.plus(x, y).abs().le(two_to(k + 1)),
        c.plus(x, y).is_finite(),
        gap(c.plus(x, y).exact(), x.exact() + y.exact()) <= two_to(k - 52).exact(),
{
    law_powers_are_ordered(k, k + 1);
    lemma_size(x, two_to(k));
    lemma_size(y, two_to(k));
    lemma_exact_power(k);
    lemma_exact_power(k + 1);
    vstd::arithmetic::power2::lemma2_to64();
    vstd::arithmetic::power2::lemma_pow2_adds(1, (k + 1074) as nat);
    lemma_sum_near(c, x, y, k + 1);
}

/// The tail that the approximation takes off one, for a distance of `m`.
spec fn tail(c: &Arithmetic, m: Double) -> Double {
    let t = c.over(
        Double::from_bits(ONE),
        c.plus(Double::from_bits(ONE), c.times(Double::from_bits(ERF_P), m)),
    );
    c.times(c.times(factor(c, t), t), c.exp(c.times(m.neg(), m)))
}

spec fn factor(c: &Arithmetic, t: Double) -> Double {
    let q4 = c.plus(c.times(Double::from_bits(ERF_A5), t), Double::from_bits(ERF_A4));
    let q3 = c.plus(c.times(q4, t), Double::from_bits(ERF_A3));
    let q2 = c.plus(c.times(q3, t), Double::from_bits(ERF_A2));
    c.plus(c.times(q2, t), Double::from_bits(ERF_A1))
}

proof fn lemma_factor(c: &Arithmetic, t: Double)
    requires
        c.is_accurate(),
        t.abs().le(two_to(1)),
    ensures
        factor(c, t).abs().le(two_to(9)),
{
    law_powers_are_ordered(1, 2);
    law_powers_are_ordered(1, 4);
    law_powers_are_ordered(1, 6);
    law_powers_are_ordered(1, 8);
    let (a1, a2) = (Double::from_bits(ERF_A1), Double::from_bits(ERF_A2));
    let (a3, a4) = (Double::from_bits(ERF_A3), Double::from_bits(ERF_A4));
    let a5 = Double::from_bits(ERF_A5);
    assert(two_to(1).bits == 0x4000_0000_0000_0000);
    assert(a1.abs().le(two_to(1)) && a2.abs().le(two_to(1)) && a3.abs().le(two_to(1)));
    assert(a4.abs().le(two_to(1)) && a5.abs().le(two_to(1)));
    lemma_product_size(c, a5, t, 1, 1);
    lemma_sum_size(c, c.times(a5, t), a4, 2);
    let q4 = c.plus(c.times(a5, t), a4);
    lemma_product_size(c, q4, t, 3, 1);
    lemma_sum_size(c, c.times(q4, t), a3, 4);
    let q3 = c.plus(c.times(q4, t), a3);
    lemma_product_size(c, q3, t, 5, 1);
    lemma_sum_size(c, c.times(q3, t), a2, 6);
    let q2 = c.plus(c.times(q3, t), a2);
    lemma_product_size(c, q2, t, 7, 1);
    lemma_sum_size(c, c.times(q2, t), a1, 8);
}

/// What one is divided by keeps clear of zero.
proof fn lemma_divisor(c: &Arithmetic, m: Double)
    requires
        c.is_accurate(),
        Double::from_bits(ZERO).le(m),
        m.le(two_to(20)),
    ensures
        ({
            let one = Double::from_bits(ONE);
            c.over(one, c.plus(one, c.times(Double::from_bits(ERF_P), m))).abs().le(two_to(1))
        }),
{
    let zero = Double::from_bits(ZERO);
    let one = Double::from_bits(ONE);
    let p = Double::from_bits(ERF_P);
    let u = unit();
    law_powers_are_ordered(0, 20);
    law_powers_are_ordered(20, 20);
    law_exact_orders(zero, m);
    law_exact_orders(zero, p);
    law_exact_orders(zero, zero);
    assert(m.abs().le(two_to(20)));
    lemma_product_size(c, p, m, 0, 20);
    let pm = c.times(p, m);
    lemma_sum_size(c, one, pm, 20);
    let base = c.plus(one, pm);
    lemma_exact_power(0);
    lemma_exact_power(1);
    lemma_exact_power(-33);
    lemma_exact_power(-32);
    vstd::arithmetic::power2::lemma2_to64();
    vstd::arithmetic::power2::lemma_pow2_adds(1, 1041);
    vstd::arithmetic::power2::lemma_pow2_adds(32, 1042);
    vstd::arithmetic::power2::lemma_pow2_adds(1, 1074);
    let (x, y, r, near) = (p.exact(), m.exact(), pm.exact(), two_to(-33).exact());
    assert(x * y >= 0) by (nonlinear_arith)
        requires
            x >= 0,
            y >= 0,
    ;
    assert(r >= -near) by (nonlinear_arith)
        requires
            gap(r * u, x * y) <= near * u,
            x * y >= 0,
            u > 0,
    ;
    let b = base.exact();
    assert(2 * b >= u);
    law_exact_orders(base, zero);
    assert(gap(u * u, 0) <= (2 * u) * gap(b, 0)) by (nonlinear_arith)
        requires
            2 * b >= u,
            u > 0,
    ;
    lemma_quotient_near(c, one, base, 1);
}

/// The square of a distance with its sign turned round.
proof fn lemma_square(c: &Arithmetic, m: Double)
    requires
        c.is_accurate(),
        Double::from_bits(ZERO).le(m),
        m.le(two_to(20)),
    ensures
        ({
            let back = c.times(m.neg(), m);
            &&& back.is_finite()
            &&& back.le(Double::from_bits(ONE))
            &&& m.exact() >= 5 * unit() ==> back.le(two_to(4).neg())
        }),
{
    let zero = Double::from_bits(ZERO);
    let one = Double::from_bits(ONE);
    let u = unit();
    law_powers_are_ordered(20, 20);
    law_powers_are_ordered(4, 4);
    law_exact_orders(zero, m);
    law_exact_orders(zero, zero);
    assert(m.abs().le(two_to(20)) && m.neg().abs().le(two_to(20)));
    lemma_product_size(c, m.neg(), m, 20, 20);
    let back = c.times(m.neg(), m);
    assert(m.neg().exact() == -m.exact());
    lemma_exact_power(0);
    lemma_exact_power(4);
    lemma_exact_power(-13);
    vstd::arithmetic::power2::lemma2_to64();
    vstd::arithmetic::power2::lemma_pow2_adds(13, 1061);
    vstd::arithmetic::power2::lemma_pow2_adds(4, 1074);
    let (y, n, r, near) = (m.exact(), m.neg().exact(), back.exact(), two_to(-13).exact());
    assert(near <= u);
    assert(r <= near) by (nonlinear_arith)
        requires
            gap(r * u, n * y) <= near * u,
            n == -y,
            u > 0,
    ;
    law_exact_orders(back, one);
    law_exact_orders(back, two_to(4).neg());
    assert(two_to(4).neg().exact() == -two_to(4).exact());
    if y >= 5 * u {
        assert(n * y <= -25 * (u * u)) by (nonlinear_arith)
            requires
                n == -y,
                y >= 5 * u,
                u > 0,
        ;
        assert(r <= near - 25 * u) by (nonlinear_arith)
            requires
                gap(r * u, n * y) <= near * u,
                n * y <= -25 * (u * u),
                u > 0,
        ;
    }
}

/// The tail is bounded, and next to nothing from a distance of 5 on.
proof fn lemma_tail(c: &Arithmetic, m: Double)
    requires
        c.is_accurate(),
        c.fades(),
        Double::from_bits(ZERO).le(m),
        m.le(two_to(20)),
    ensures
        tail(c, m).abs().le(two_to(12)),
        m.exact() >= 5 * unit() ==> tail(c, m).abs().le(two_to(-10)),
{
    reveal(Arithmetic::fades);
    let one = Double::from_bits(ONE);
    let t = c.over(one, c.plus(one, c.times(Double::from_bits(ERF_P), m)));
    lemma_divisor(c, m);
    lemma_factor(c, t);
    lemma_product_size(c, factor(c, t), t, 9, 1);
    lemma_square(c, m);
    let e = c.exp(c.times(m.neg(), m));
    law_powers_are_ordered(2, 2);
    law_powers_are_ordered(-20, 2);
    lemma_product_size(c, c.times(factor(c, t), t), e, 10, 2);
    if m.exact() >= 5 * unit() {
        lemma_product_size(c, c.times(factor(c, t), t), e, 10, -20);
    }
}

/// The error function has the sign of its argument; far from zero it is next to one.
proof fn lemma_error_function(c: &Arithmetic, x: Double)
    requires
        c.is_accurate(),
        c.fades(),
        x.abs().le(two_to(20)),
        !x.is_zero(),
    ensures
        ({
            let y = c.minus(Double::from_bits(ONE), tail(c, x.abs())).exact();
            let e = erf_of(c, x);
            &&& e.abs().le(two_to(13))
            &&& gap(e.exact(), if x.exact() > 0 { y } else { -y }) <= two_to(-40).exact()
            &&& x.abs().exact() >= 5 * unit() ==> gap(y, unit()) <= 2 * two_to(-10).exact()
        }),
{
    let zero = Double::from_bits(ZERO);
    let one = Double::from_bits(ONE);
    let m = x.abs();
    let u = unit();
    law_powers_are_ordered(0, 0);
    law_powers_are_ordered(0, 12);
    law_powers_are_ordered(-10, 12);
    law_powers_are_ordered(12, 13);
    law_exact_orders(zero, m);
    law_exact_orders(x, zero);
    law_exact_orders(zero, x);
    law_exact_orders(zero, zero);
    lemma_tail(c, m);
    let t = tail(c, m);
    lemma_size(t, two_to(12));
    lemma_exact_power(0);
    lemma_exact_power(12);
    lemma_exact_power(13);
    lemma_exact_power(-40);
    lemma_exact_power(-10);
    vstd::arithmetic::power2::lemma2_to64();
    vstd::arithmetic::power2::lemma_pow2_adds(12, 1074);
    vstd::arithmetic::power2::lemma_pow2_adds(1, 1086);
    vstd::arithmetic::power2::lemma_pow2_adds(30, 1034);
    lemma_difference_near(c, one, t, 13);
    let y = c.minus(one, t);
    let sign = if x.lt(zero) {
        one.neg()
    } else {
        one
    };
    assert(sign.abs().le(two_to(0)));
    lemma_product_size(c, sign, y, 0, 13);
    let e = erf_of(c, x);
    assert(e == c.times(sign, y));
    assert(one.neg().exact() == -u);
    let (v, s, w, near) = (e.exact(), sign.exact(), y.exact(), two_to(-40).exact());
    if x.exact() > 0 {
        assert(s * w == w * u) by (nonlinear_arith)
            requires
                s == u,
        ;
        lemma_cancel(v, w, near, u);
    } else {
        assert(s * w == (-w) * u) by (nonlinear_arith)
            requires
                s == -u,
        ;
        lemma_cancel(v, -w, near, u);
    }
    if m.exact() >= 5 * u {
        lemma_size(t, two_to(-10));
    }
}

/// A number of deviations, as the argument of the error function.
proof fn lemma_argument(c: &Arithmetic, z: Double)
    requires
        c.is_accurate(),
        z.abs().le(two_to(20)),
        two_to(-10).le(z.abs()),
    ensures
        ({
            let x = c.over(z, Double::from_bits(SQRT_2));
            &&& x.abs().le(two_to(20))
            &&& !x.is_zero()
            &&& x.exact() > 0 <==> z.exact() > 0
            &&& two_to(3).le(z.abs()) ==> x.abs().exact() >= 5 * unit()
        }),
{
    let zero = Double::from_bits(ZERO);
    let one = Double::from_bits(ONE);
    let root = Double::from_bits(SQRT_2);
    // 1.5
    let more = Double::from_bits(0x3FF8_0000_0000_0000);
    let u = unit();
    law_powers_are_ordered(20, 20);
    law_powers_are_ordered(-10, 20);
    law_powers_are_ordered(3, 3);
    law_exact_orders(one, root);
    law_exact_orders(root, more);
    lemma_exact_power(-1);
    lemma_exact_power(0);
    lemma_exact_power(3);
    lemma_exact_power(20);
    lemma_exact_power(-10);
    lemma_exact_power(-33);
    vstd::arithmetic::power2::lemma2_to64();
    vstd::arithmetic::power2::lemma_pow2_adds(1, 1073);
    vstd::arithmetic::power2::lemma_pow2_adds(3, 1074);
    vstd::arithmetic::power2::lemma_pow2_adds(10, 1064);
    vstd::arithmetic::power2::lemma_pow2_adds(23, 1041);
    vstd::arithmetic::power2::lemma_pow2_adds(33, 1041);
    lemma_one_and_a_half();
    lemma_size(z, two_to(20));
    law_exact_orders(two_to(-10), z.abs());
    law_exact_orders(two_to(3), z.abs());
    law_exact_orders(zero, zero);
    law_exact_orders(root, zero);
    let (a, b, top) = (z.exact(), root.exact(), two_to(20).exact());
    assert(gap(a * u, 0) <= top * gap(b, 0)) by (nonlinear_arith)
        requires
            -top <= a <= top,
            b >= u,
            u > 0,
    ;
    lemma_quotient_near(c, z, root, 20);
    let x = c.over(z, root);
    let (w, near, least) = (x.exact(), two_to(-33).exact(), two_to(-10).exact());
    law_exact_orders(x, zero);
    assert(z.abs().exact() == gap(a, 0));
    assert(x.abs().exact() == gap(w, 0));
    assert(gap(b, 0) == b);
    if a > 0 {
        assert(2 * w >= least) by (nonlinear_arith)
            requires
                gap(w * b, a * u) <= near * b,
                a >= least,
                2 * b <= 3 * u,
                b >= u,
                12 * near <= least,
                u > 0,
                near > 0,
        ;
        if a >= 8 * u {
            assert(w >= 5 * u) by (nonlinear_arith)
                requires
                    gap(w * b, a * u) <= near * b,
                    a >= 8 * u,
                    2 * b <= 3 * u,
                    b >= u,
                    12 * near <= u,
                    u > 0,
            ;
        }
    } else {
        assert(-2 * w >= least) by (nonlinear_arith)
            requires
                gap(w * b, a * u) <= near * b,
                -a >= least,
                2 * b <= 3 * u,
                b >= u,
                12 * near <= least,
                u > 0,
                near > 0,
        ;
        if -a >= 8 * u {
            assert(-w >= 5 * u) by (nonlinear_arith)
                requires
                    gap(w * b, a * u) <= near * b,
                    -a >= 8 * u,
                    2 * b <= 3 * u,
                    b >= u,
                    12 * near <= u,
                    u > 0,
            ;
        }
    }
}

proof fn lemma_one_and_a_half()
    ensures
        2 * Double::from_bits(0x3FF8_0000_0000_0000).exact() == 3 * unit(),
{
    let m = 0x3FF8_0000_0000_0000int;
    let step = EXPONENT as int;
    assert(m / step == 1023 && m % step == 0x8_0000_0000_0000);
    lemma_exact_power(0);
    let p = vstd::arithmetic::power2::pow2(1022) as int;
    vstd::arithmetic::power2::lemma2_to64();
    vstd::arithmetic::power2::lemma_pow2_adds(32, 20);
    vstd::arithmetic::power2::lemma_pow2_adds(52, 1022);
    assert(vstd::arithmetic::power2::pow2(52) == 0x10_0000_0000_0000);
    assert(2 * (0x18_0000_0000_0000 * p) == 3 * (0x10_0000_0000_0000 * p)) by (nonlinear_arith);
}

/// Half of one and a number is near the half of their sum.
proof fn lemma_half_of_sum(c: &Arithmetic, e: Double)
    requires
        c.is_accurate(),
        e.abs().le(two_to(13)),
    ensures
        ({
            let r = c.times(Double::from_bits(HALF), c.plus(Double::from_bits(ONE), e));
            &&& r.is_finite()
            &&& gap(2 * r.exact(), unit() + e.exact()) <= 4 * two_to(-39).exact()
        }),
{
    let one = Double::from_bits(ONE);
    let half = Double::from_bits(HALF);
    let u = unit();
    law_powers_are_ordered(0, 13);
    law_powers_are_ordered(-1, -1);
    law_powers_are_ordered(-40, -39);
    law_exact_orders(two_to(-40), two_to(-39));
    assert(half == two_to(-1));
    lemma_sum_size(c, one, e, 13);
    let sum = c.plus(one, e);
    lemma_product_size(c, half, sum, -1, 14);
    let r = c.times(half, sum);
    lemma_exact_power(-1);
    lemma_exact_power(0);
    lemma_exact_power(-39);
    lemma_exact_power(-40);
    vstd::arithmetic::power2::lemma2_to64();
    vstd::arithmetic::power2::lemma_pow2_adds(1, 1073);
    let (x, h, y, near) = (r.exact(), half.exact(), sum.exact(), two_to(-40).exact());
    assert(gap(2 * x, y) <= 2 * near) by (nonlinear_arith)
        requires
            gap(x * u, h * y) <= near * u,
            u == 2 * h,
            h > 0,
    ;
}

/// The two sides of a distance share one: what lies below it, and what lies below its mirror
/// image, make up the whole, up to roundings.
pub proof fn law_tails_share_one(c: &Arithmetic, z: Double)
    requires
        c.is_accurate(),
        c.rounds(),
        c.fades(),
        z.abs().le(two_to(20)),
        two_to(-10).le(z.abs()),
    ensures
        gap(cdf_of(c, z).exact() + cdf_of(c, z.neg()).exact(), unit()) <= two_to(-30).exact(),
{
    reveal(Arithmetic::rounds_quotients);
    let root = Double::from_bits(SQRT_2);
    let x = c.over(z, root);
    lemma_argument(c, z);
    assert(c.over(z.neg(), root) == x.neg());
    assert(x.neg().abs() == x.abs());
    assert(x.neg().exact() == -x.exact());
    lemma_error_function(c, x);
    law_exact_orders(x.neg(), x);
    law_exact_orders(x, x);
    lemma_error_function(c, x.neg());
    lemma_half_of_sum(c, erf_of(c, x));
    lemma_half_of_sum(c, erf_of(c, x.neg()));
    lemma_exact_power(-30);
    lemma_exact_power(-39);
    lemma_exact_power(-40);
    vstd::arithmetic::power2::lemma2_to64();
    vstd::arithmetic::power2::lemma_pow2_adds(1, 1034);
    vstd::arithmetic::power2::lemma_pow2_adds(9, 1035);
}

/// Eight deviations above is next to certain, eight below next to impossible.
pub proof fn law_far_above_is_near_certain(c: &Arithmetic, z: Double)
    requires
        c.is_accurate(),
        c.fades(),
        z.abs().le(two_to(20)),
    ensures
        two_to(3).le(z) ==> gap(cdf_of(c, z).exact(), unit()) <= two_to(-9).exact(),
        z.le(two_to(3).neg()) ==> gap(cdf_of(c, z).exact(), 0) <= two_to(-9).exact(),
        cdf_of(c, z).is_finite() || z.abs().lt(two_to(3)),
{
    law_powers_are_ordered(-10, 3);
    law_powers_are_ordered(3, 3);
    law_powers_are_ordered(3, 20);
    if !z.abs().lt(two_to(3)) {
        law_exact_orders(two_to(3), z);
        law_exact_orders(z, two_to(3).neg());
        assert(two_to(3).neg().exact() == -two_to(3).exact());
        lemma_exact_power(3);
        let x = c.over(z, Double::from_bits(SQRT_2));
        lemma_argument(c, z);
        lemma_error_function(c, x);
        lemma_half_of_sum(c, erf_of(c, x));
        lemma_exact_power(-9);
        lemma_exact_power(-10);
        lemma_exact_power(-39);
        lemma_exact_power(-40);
        vstd::arithmetic::power2::lemma2_to64();
        vstd::arithmetic::power2::lemma_pow2_adds(1, 1064);
        vstd::arithmetic::power2::lemma_pow2_adds(29, 1035);
        vstd::arithmetic::power2::lemma_pow2_adds(1, 1034);
    }
}

/// Whether a number is of the size that releases have.
pub open spec fn is_ordinary(x: Double) -> bool {
    x.abs().le(two_to(8))
}

/// A release far beyond a threshold, measured in its own deviations, is next to certain to exceed
/// it, and one far short of it next to certain not to.
pub proof fn law_far_beyond_a_threshold(
    c: &Arithmetic,
    mean: Double,
    std: Double,
    threshold: Double,
)
    requires
        c.is_accurate(),
        c.fades(),
        is_ordinary(mean),
        is_ordinary(threshold),
        two_to(-8).le(std),
        is_ordinary(std),
    ensures
        ({
            let r = exceeds_of(c, mean, std, threshold);
            let ahead = mean.exact() - threshold.exact();
            &&& ahead >= 9 * std.exact() ==> r.is_finite() && gap(r.exact(), unit()) <= two_to(
                -9,
            ).exact()
            &&& ahead <= -9 * std.exact() ==> r.is_finite() && gap(r.exact(), 0) <= two_to(
                -9,
            ).exact()
        }),
{
    let zero = Double::from_bits(ZERO);
    let u = unit();
    law_powers_are_ordered(-8, 8);
    law_powers_are_ordered(8, 9);
    law_powers_are_ordered(3, 20);
    law_powers_are_ordered(3, 3);
    lemma_size(mean, two_to(8));
    lemma_size(threshold, two_to(8));
    lemma_exact_power(-44);
    lemma_exact_power(-33);
    lemma_exact_power(-8);
    lemma_exact_power(0);
    lemma_exact_power(3);
    lemma_exact_power(8);
    lemma_exact_power(9);
    lemma_exact_power(20);
    vstd::arithmetic::power2::lemma2_to64();
    vstd::arithmetic::power2::lemma_pow2_adds(1, 1082);
    vstd::arithmetic::power2::lemma_pow2_adds(3, 1074);
    vstd::arithmetic::power2::lemma_pow2_adds(9, 1074);
    vstd::arithmetic::power2::lemma_pow2_adds(20, 1074);
    vstd::arithmetic::power2::lemma_pow2_adds(32, 1030);
    vstd::arithmetic::power2::lemma_pow2_adds(4, 1062);
    vstd::arithmetic::power2::lemma_pow2_adds(32, 1041);
    vstd::arithmetic::power2::lemma_pow2_adds(1, 1073);
    vstd::arithmetic::power2::lemma_pow2_adds(8, 1066);
    law_exact_orders(two_to(-8), std);
    law_exact_orders(std, zero);
    law_exact_orders(zero, zero);
    law_exact_orders(Double::from_bits(TINY), two_to(-8));
    assert(two_to(-8).bits == 0x3F70_0000_0000_0000);
    assert(std.larger(Double::from_bits(TINY)) == std);
    lemma_difference_near(c, mean, threshold, 9);
    let d = c.minus(mean, threshold);
    lemma_size(d, two_to(9));
    let (a, b, most, top, least) = (
        d.exact(),
        std.exact(),
        two_to(9).exact(),
        two_to(20).exact(),
        two_to(-8).exact(),
    );
    assert(most * u <= top * least) by (nonlinear_arith)
        requires
            most == 512 * u,
            u == 256 * least,
            top == 1048576 * u,
            u > 0,
    ;
    assert(gap(a * u, 0) <= top * gap(b, 0)) by (nonlinear_arith)
        requires
            -most <= a <= most,
            b >= least,
            most * u <= top * least,
            top > 0,
            u > 0,
    ;
    lemma_quotient_near(c, d, std, 20);
    let z = c.over(d, std);
    let (w, near, slip) = (z.exact(), two_to(-33).exact(), two_to(-44).exact());
    let ahead = mean.exact() - threshold.exact();
    law_exact_orders(two_to(3), z);
    law_exact_orders(z, two_to(3).neg());
    assert(two_to(3).neg().exact() == -two_to(3).exact());
    law_far_above_is_near_certain(c, z);
    assert(gap(b, 0) == b);
    if ahead >= 9 * b {
        assert(w >= 8 * u) by (nonlinear_arith)
            requires
                gap(w * b, a * u) <= near * b,
                a >= 9 * b - slip,
                4 * slip <= b,
                4 * near <= u,
                b > 0,
                u > 0,
        ;
    }
    if ahead <= -9 * b {
        assert(w <= -8 * u) by (nonlinear_arith)
            requires
                gap(w * b, a * u) <= near * b,
                a <= slip - 9 * b,
                4 * slip <= b,
                4 * near <= u,
                b > 0,
                u > 0,
        ;
    }
}

/// A release is priced in the direction of its contract: far beyond the threshold a rise is next to
/// certain and a fall next to impossible, far short of it the other way round; and a range is next
/// to certain far within its bounds, and next to impossible far outside of them.
pub proof fn law_release_pays_in_its_direction(
    c: &Arithmetic,
    contract: Seq<char>,
    mean: Double,
    std: Double,
    threshold: Double,
    lower: i64,
    upper: i64,
)
    requires
        c.is_accurate(),
        c.fades(),
        is_ordinary(mean),
        is_ordinary(threshold),
        two_to(-8).le(std),
        is_ordinary(std),
        lower != 0,
    ensures
        ({
            let chance = priced(c, contract, threshold, mean, std).0.exact();
            let ahead = mean.exact() - threshold.exact();
            let far = 9 * std.exact();
            let e = two_to(-7).exact();
            let top = c.over(c.times(threshold, c.of_signed(upper)), c.of_signed(lower));
            let terms = CanonicalContractId::terms(contract);
            &&& terms matches Some((Direction::GreaterThan, _)) ==> {
                &&& ahead >= far ==> gap(chance, unit()) <= e
                &&& ahead <= -far ==> gap(chance, 0) <= e
            }
            &&& terms matches Some((Direction::LessThan, _)) ==> {
                &&& ahead >= far ==> gap(chance, 0) <= e
                &&& ahead <= -far ==> gap(chance, unit()) <= e
            }
            &&& terms == Some((Direction::Between { upper }, lower as int)) && is_ordinary(
                top,
            ) ==> {
                let beyond = mean.exact() - top.exact();
                &&& ahead >= far && beyond <= -far ==> gap(chance, unit()) <= e
                &&& ahead >= far && beyond >= far ==> gap(chance, 0) <= e
                &&& ahead <= -far && beyond <= -far ==> gap(chance, 0) <= e
            }
        }),
{
    let one = Double::from_bits(ONE);
    let top = c.over(c.times(threshold, c.of_signed(upper)), c.of_signed(lower));
    law_far_beyond_a_threshold(c, mean, std, threshold);
    lemma_exact_power(-53);
    lemma_exact_power(-52);
    lemma_exact_power(-9);
    lemma_exact_power(-7);
    lemma_exact_power(0);
    lemma_exact_power(1);
    vstd::arithmetic::power2::lemma2_to64();
    vstd::arithmetic::power2::lemma_pow2_adds(1, 1074);
    vstd::arithmetic::power2::lemma_pow2_adds(2, 1065);
    vstd::arithmetic::power2::lemma_pow2_adds(9, 1065);
    vstd::arithmetic::power2::lemma_pow2_adds(43, 1022);
    law_powers_are_ordered(0, 1);
    let beyond = exceeds_of(c, mean, std, threshold);
    let ahead = mean.exact() - threshold.exact();
    let far = 9 * std.exact();
    if ahead >= far || ahead <= -far {
        lemma_difference_near(c, one, beyond, 1);
        if is_ordinary(top) {
            law_far_beyond_a_threshold(c, mean, std, top);
            let past = exceeds_of(c, mean, std, top);
            let over = mean.exact() - top.exact();
            if over >= far || over <= -far {
                lemma_difference_near(c, beyond, past, 1);
            }
        }
    }
}

/// Of two payloads that differ in their prices alone, the one with the higher ratio of the price to
/// the reference has the higher z-score.
proof fn lemma_ratio_leads(
    c: &Arithmetic,
    source: ReferenceDistanceSource,
    p: ReferenceDistancePayload,
    q: ReferenceDistancePayload,
)
    requires
        c.keeps_order(),
        c.rounds(),
        c.has_log_odds(),
        p.recent_prices == q.recent_prices,
        p.tick_interval_secs == q.tick_interval_secs,
        p.seconds_remaining == q.seconds_remaining,
        Double::from_bits(ZERO).le(c.over(p.current_price, p.reference_price)),
        c.over(p.current_price, p.reference_price).le(c.over(q.current_price, q.reference_price)),
        !source.z_score(c, p).is_nan(),
        !source.z_score(c, q).is_nan(),
    ensures
        source.z_score(c, p).le(source.z_score(c, q)),
{
    reveal(Arithmetic::rounds_quotients);
    reveal(Arithmetic::rounds_sums);
    reveal(Arithmetic::has_log_odds);
    let moves = log_returns(c, p.recent_prices@);
    let floor = Double::from_bits(MIN_SIGMA);
    let sigma = c.over(source.return_std(c, moves), c.sqrt(p.tick_interval_secs)).larger(floor);
    let mu = c.over(
        c.times(source.momentum_coefficient, ReferenceDistanceSource::mean_return(c, moves)),
        p.tick_interval_secs,
    );
    let tau = p.seconds_remaining.larger(Double::from_bits(MIN_TAU));
    let denom = c.times(sigma, c.sqrt(tau)).larger(floor);
    let drift = c.times(mu, tau);
    let x = c.ln(c.over(p.current_price, p.reference_price));
    let y = c.ln(c.over(q.current_price, q.reference_price));
    assert(x.le(y));
    let (a, b) = (c.plus(x, drift), c.plus(y, drift));
    assert(source.z_score(c, p) == c.over(a, denom));
    assert(source.z_score(c, q) == c.over(b, denom));
    assert(!a.is_nan() && !b.is_nan());
    assert(c.plus(drift, x) == a && c.plus(drift, y) == b);
    assert(a.le(b));
    assert(Double::from_bits(ZERO).lt(denom));
}

/// A higher price stands further above its reference, and a higher reference makes it stand lower.
pub proof fn law_distance_follows_the_price(
    c: &Arithmetic,
    source: ReferenceDistanceSource,
    p: ReferenceDistancePayload,
    higher: Double,
)
    requires
        c.is_ieee(),
        c.keeps_order(),
        c.rounds(),
        c.has_log_odds(),
        p.current_price.is_finite(),
        p.reference_price.is_finite(),
        higher.is_finite(),
        Double::from_bits(ZERO).lt(p.current_price),
        Double::from_bits(ZERO).lt(p.reference_price),
    ensures
        ({
            let z = source.z_score(c, p);
            let up = source.z_score(c, ReferenceDistancePayload { current_price: higher, ..p });
            let down = source.z_score(c, ReferenceDistancePayload { reference_price: higher, ..p });
            &&& p.current_price.le(higher) && !z.is_nan() && !up.is_nan() ==> z.le(up)
            &&& p.reference_price.le(higher) && !z.is_nan() && !down.is_nan() ==> down.le(z)
        }),
{
    reveal(Arithmetic::rounds_quotients);
    let q = ReferenceDistancePayload { current_price: higher, ..p };
    let r = ReferenceDistancePayload { reference_price: higher, ..p };
    let ratio = c.over(p.current_price, p.reference_price);
    assert(Double::from_bits(ZERO).le(ratio));
    let (z, up, down) = (source.z_score(c, p), source.z_score(c, q), source.z_score(c, r));
    if p.current_price.le(higher) && !z.is_nan() && !up.is_nan() {
        assert(Double::from_bits(ZERO).le(c.over(higher, p.reference_price)));
        lemma_ratio_leads(c, source, p, q);
    }
    if p.reference_price.le(higher) && !z.is_nan() && !down.is_nan() {
        assert(Double::from_bits(ZERO).le(c.over(p.current_price, higher)));
        lemma_ratio_leads(c, source, r, p);
    }
}

/// A chance near one stays above a half when it is kept from certainty, one near zero below it.
proof fn lemma_kept_from_certainty(p: Double)
    requires
        p.is_finite(),
    ensures
        gap(p.exact(), unit()) <= two_to(-7).exact() ==> Double::from_bits(HALF).lt(
            clamp_probability(p),
        ),
        gap(p.exact(), 0) <= two_to(-7).exact() ==> clamp_probability(p).lt(
            Double::from_bits(HALF),
        ),
{
    let half = Double::from_bits(HALF);
    law_exact_orders(half, p);
    law_exact_orders(p, half);
    law_powers_are_ordered(-1, 0);
    assert(half == two_to(-1));
    lemma_exact_power(-7);
    lemma_exact_power(-1);
    lemma_exact_power(0);
    vstd::arithmetic::power2::lemma2_to64();
    vstd::arithmetic::power2::lemma_pow2_adds(7, 1067);
    vstd::arithmetic::power2::lemma_pow2_adds(1, 1073);
}

/// The distance source believes in the side that the asset stands on: far above its reference price
/// the contract is likelier to pay than not, far below it less likely.
pub proof fn law_distance_leans_with_the_score(
    c: &Arithmetic,
    source: ReferenceDistanceSource,
    event: &RawEvent,
)
    requires
        c.is_accurate(),
        c.fades(),
        event.payload.reference_distance is Some,
        source.z_score(c, event.payload.reference_distance->0).abs().le(two_to(20)),
    ensures
        source.opinion(c, event) matches Some(e) ==> {
            let z = source.z_score(c, event.payload.reference_distance->0);
            &&& two_to(3).le(z) ==> Double::from_bits(HALF).lt(e.probability)
            &&& z.le(two_to(3).neg()) ==> e.probability.lt(Double::from_bits(HALF))
        },
{
    let z = source.z_score(c, event.payload.reference_distance->0);
    law_far_above_is_near_certain(c, z);
    law_powers_are_ordered(3, 3);
    law_powers_are_ordered(-9, -7);
    law_exact_orders(two_to(-9), two_to(-7));
    if cdf_of(c, z).is_finite() {
        lemma_kept_from_certainty(cdf_of(c, z));
    }
}

/// The release source believes what its outlook says of the contract: an outlook far beyond the
/// threshold makes a rise likelier than not and a fall less likely, one far short of it the other
/// way round.
pub proof fn law_release_leans_with_the_outlook(
    c: &Arithmetic,
    source: EconNowcastSource,
    event: &RawEvent,
)
    requires
        c.is_accurate(),
        c.fades(),
        event.payload.econ is Some,
        ({
            let p = event.payload.econ->0;
            let (mean, std) = outlook(p, source.surprise_std_by_series@);
            &&& is_ordinary(mean)
            &&& is_ordinary(p.threshold)
            &&& two_to(-8).le(std)
            &&& is_ordinary(std)
        }),
    ensures
        source.opinion(c, event) matches Some(e) ==> {
            let p = event.payload.econ->0;
            let half = Double::from_bits(HALF);
            let (mean, std) = outlook(p, source.surprise_std_by_series@);
            let ahead = mean.exact() - p.threshold.exact();
            let far = 9 * std.exact();
            let terms = CanonicalContractId::terms(p.contract@);
            &&& terms matches Some((Direction::GreaterThan, _)) ==> {
                &&& ahead >= far ==> half.lt(e.probability)
                &&& ahead <= -far ==> e.probability.lt(half)
            }
            &&& terms matches Some((Direction::LessThan, _)) ==> {
                &&& ahead >= far ==> e.probability.lt(half)
                &&& ahead <= -far ==> half.lt(e.probability)
            }
        },
{
    let p = event.payload.econ->0;
    let (mean, std) = outlook(p, source.surprise_std_by_series@);
    law_release_pays_in_its_direction(c, p.contract@, mean, std, p.threshold, 1, 1);
    law_far_beyond_a_threshold(c, mean, std, p.threshold);
    let beyond = exceeds_of(c, mean, std, p.threshold);
    if beyond.is_finite() {
        lemma_kept_from_certainty(beyond);
        law_powers_are_ordered(0, 1);
        lemma_exact_power(0);
        lemma_exact_power(1);
        lemma_exact_power(-9);
        vstd::arithmetic::power2::lemma2_to64();
        vstd::arithmetic::power2::lemma_pow2_adds(1, 1074);
        vstd::arithmetic::power2::lemma_pow2_adds(9, 1065);
        let one = Double::from_bits(ONE);
        if gap(one.exact(), beyond.exact()) <= two_to(1).exact() {
            lemma_difference_near(c, one, beyond, 1);
            lemma_kept_from_certainty(c.minus(one, beyond));
        }
    }
}

} // verus!
