//! How sure an ensemble is: the deviation of its share shrinks with its members.
use vstd::prelude::*;
use crate::alpha::payload::WeatherPayload;
use crate::alpha::source::AlphaSource;
use crate::alpha::sources::leanings::{is_paid, lemma_hits};
use crate::alpha::sources::weather::{direction_of, hits, WeatherEnsembleSource};
use crate::alpha::stats;
use crate::double::{Arithmetic, Double, HALF, ONE, ZERO};
use crate::rounding::{
    gap, law_exact_orders, law_powers_are_ordered, lemma_cancel, lemma_difference_near,
    lemma_exact_power, lemma_product_near, lemma_quotient_near, lemma_size, lemma_sum_near, two_to,
    unit,
};
use crate::types::alpha::{AlphaEventKind, RawEvent};
use crate::types::contract::Direction;

verus! {

/// The powers of two that the proofs below compare, in terms of 2^-42.
proof fn lemma_scale()
    ensures
        ({
            let g = two_to(-42).exact();
            &&& g > 0
            &&& unit() == 0x400_0000_0000 * g
            &&& two_to(-53).exact() <= g
            &&& 2 * two_to(-43).exact() == g
            &&& two_to(-41).exact() == 2 * g
            &&& two_to(-33).exact() == 0x200 * g
            &&& two_to(-32).exact() == 0x400 * g
            &&& two_to(-23).exact() == 0x8_0000 * g
            &&& two_to(-50).exact() <= g
            &&& two_to(-53).exact() * 0x4000_0000 <= 0x8_0000 * g
            &&& two_to(10).exact() == 0x400 * unit()
            &&& two_to(11).exact() == 0x800 * unit()
            &&& two_to(12).exact() == 0x1000 * unit()
            &&& two_to(20).exact() == 0x10_0000 * unit()
            &&& two_to(21).exact() == 0x20_0000 * unit()
            &&& two_to(30).exact() == 0x4000_0000 * unit()
            &&& 2 * two_to(-1).exact() == unit()
            &&& 0x100 * two_to(-50).exact() == g
        }),
{
    lemma_exact_power(-53);
    lemma_exact_power(-50);
    lemma_exact_power(-43);
    lemma_exact_power(-42);
    lemma_exact_power(-41);
    lemma_exact_power(-33);
    lemma_exact_power(-32);
    lemma_exact_power(-23);
    lemma_exact_power(-1);
    lemma_exact_power(0);
    lemma_exact_power(10);
    lemma_exact_power(11);
    lemma_exact_power(12);
    lemma_exact_power(20);
    lemma_exact_power(21);
    lemma_exact_power(30);
    law_powers_are_ordered(0, 0);
    vstd::arithmetic::power2::lemma2_to64();
    vstd::arithmetic::power2::lemma_pow2_adds(11, 1021);
    vstd::arithmetic::power2::lemma_pow2_adds(8, 1024);
    vstd::arithmetic::power2::lemma_pow2_adds(1, 1031);
    vstd::arithmetic::power2::lemma_pow2_adds(1, 1032);
    vstd::arithmetic::power2::lemma_pow2_adds(9, 1032);
    vstd::arithmetic::power2::lemma_pow2_adds(10, 1032);
    vstd::arithmetic::power2::lemma_pow2_adds(19, 1032);
    vstd::arithmetic::power2::lemma_pow2_adds(32, 1032);
    vstd::arithmetic::power2::lemma_pow2_adds(10, 1064);
    vstd::arithmetic::power2::lemma_pow2_adds(1, 1073);
    vstd::arithmetic::power2::lemma_pow2_adds(10, 1074);
    vstd::arithmetic::power2::lemma_pow2_adds(11, 1074);
    vstd::arithmetic::power2::lemma_pow2_adds(12, 1074);
    vstd::arithmetic::power2::lemma_pow2_adds(20, 1074);
    vstd::arithmetic::power2::lemma_pow2_adds(21, 1074);
    vstd::arithmetic::power2::lemma_pow2_adds(30, 1074);
}

proof fn lemma_expand(x: int, p: int, y: int, q: int, u: int)
    ensures
        (x * u + p) * (y * u + q) == (x * y) * (u * u) + u * (x * q + y * p) + p * q,
{
    let (xu, yu, xq, yp) = (x * u, y * u, x * q, y * p);
    assert((xu + p) * (yu + q) == xu * yu + xu * q + p * yu + p * q) by (nonlinear_arith);
    assert(xu * yu == (x * y) * (u * u)) by (nonlinear_arith)
        requires
            xu == x * u,
            yu == y * u,
    ;
    assert(xu * q == u * xq) by (nonlinear_arith)
        requires
            xu == x * u,
            xq == x * q,
    ;
    assert(p * yu == u * yp) by (nonlinear_arith)
        requires
            yu == y * u,
            yp == y * p,
    ;
    assert(u * (xq + yp) == u * xq + u * yp) by (nonlinear_arith);
}

/// The product of the two sides.
proof fn lemma_sides(a: int, b: int, k: int, n: int, g: int, u: int, product: int)
    requires
        0 <= k <= n,
        1 <= n <= 1000,
        0 < g,
        g <= u,
        gap(2 * a, (2 * k + 1) * u) <= 2 * g,
        gap(2 * b, (2 * (n - k) + 1) * u) <= 6 * g,
        gap(product * u, a * b) <= 0x400 * g * u,
    ensures
        gap(4 * product, ((2 * k + 1) * (2 * (n - k) + 1)) * u) <= 0x8000 * g,
{
    let (x, y) = (2 * k + 1, 2 * (n - k) + 1);
    let (p, q) = (2 * a - x * u, 2 * b - y * u);
    assert(1 <= x <= 2001 && 1 <= y <= 2001);
    lemma_expand(x, p, y, q, u);
    assert((2 * a) * (2 * b) == (x * y) * (u * u) + u * (x * q + y * p) + p * q);
    assert(gap(x * q, 0) <= 12006 * g && gap(y * p, 0) <= 4002 * g) by (nonlinear_arith)
        requires
            1 <= x <= 2001,
            1 <= y <= 2001,
            -6 * g <= q <= 6 * g,
            -2 * g <= p <= 2 * g,
            g > 0,
    ;
    let w = x * q + y * p;
    assert(gap(u * w, 0) <= 16008 * (g * u)) by (nonlinear_arith)
        requires
            -16008 * g <= w <= 16008 * g,
            u > 0,
    ;
    assert(gap(p * q, 0) <= 12 * (g * u)) by (nonlinear_arith)
        requires
            -6 * g <= q <= 6 * g,
            -2 * g <= p <= 2 * g,
            0 < g <= u,
    ;
    let ab = a * b;
    assert((2 * a) * (2 * b) == 4 * ab) by (nonlinear_arith)
        requires
            ab == a * b,
    ;
    assert(0x400 * g * u == 0x400 * (g * u)) by (nonlinear_arith);
    let z = x * y;
    assert((z * u) * u == z * (u * u)) by (nonlinear_arith);
    assert((4 * product) * u == 4 * (product * u)) by (nonlinear_arith);
    assert((0x8000 * g) * u == 0x8000 * (g * u)) by (nonlinear_arith);
    assert(g * u > 0) by (nonlinear_arith)
        requires
            g > 0,
            u > 0,
    ;
    lemma_cancel(4 * product, z * u, 0x8000 * g, u);
}

/// What the product of the sides is divided by.
proof fn lemma_divisor(s: int, q: int, r: int, d: int, n: int, g: int, u: int)
    requires
        1 <= n <= 1000,
        0 < g,
        0x400_0000_0000 * g == u,
        gap(s, (n + 1) * u) <= 6 * g,
        gap(q * u, s * s) <= 0x200 * g * u,
        gap(r, s + u) <= g,
        gap(d * u, q * r) <= 0x8_0000 * g * u,
    ensures
        gap(d, ((n + 1) * (n + 1) * (n + 2)) * u) <= 0x800_0000 * g,
{
    let (m, w) = (n + 1, n + 2);
    let t = s - m * u;
    assert(s * s == (m * m) * (u * u) + u * (2 * m * t) + t * t) by (nonlinear_arith)
        requires
            s == m * u + t,
    ;
    assert(gap(2 * m * t, 0) <= 12012 * g) by (nonlinear_arith)
        requires
            2 <= m <= 1001,
            -6 * g <= t <= 6 * g,
            g > 0,
    ;
    let mt = 2 * m * t;
    assert(gap(u * mt, 0) <= 12012 * (g * u)) by (nonlinear_arith)
        requires
            -12012 * g <= mt <= 12012 * g,
            u > 0,
    ;
    assert(gap(t * t, 0) <= 36 * (g * u)) by (nonlinear_arith)
        requires
            -6 * g <= t <= 6 * g,
            0 < g <= u,
    ;
    assert(g * u > 0) by (nonlinear_arith)
        requires
            g > 0,
            u > 0,
    ;
    assert(0x200 * g * u == 0x200 * (g * u)) by (nonlinear_arith);
    let mm = m * m;
    assert((mm * u) * u == mm * (u * u)) by (nonlinear_arith);
    assert((0x8000 * g) * u == 0x8000 * (g * u)) by (nonlinear_arith);
    lemma_cancel(q, mm * u, 0x8000 * g, u);
    assert(m * u + u == w * u) by (nonlinear_arith)
        requires
            w == m + 1,
    ;
    assert(gap(r, w * u) <= 7 * g);
    let (e, f) = (q - mm * u, r - w * u);
    assert(mm <= 1002001 && mm >= 0) by (nonlinear_arith)
        requires
            mm == m * m,
            2 <= m <= 1001,
    ;
    lemma_expand(mm, e, w, f, u);
    assert(q * r == (mm * w) * (u * u) + u * (mm * f + w * e) + e * f);
    assert(gap(mm * f, 0) <= 7014007 * g && gap(w * e, 0) <= 32833536 * g) by (nonlinear_arith)
        requires
            0 <= mm <= 1002001,
            3 <= w <= 1002,
            -7 * g <= f <= 7 * g,
            -0x8000 * g <= e <= 0x8000 * g,
            g > 0,
    ;
    let h = mm * f + w * e;
    assert(gap(u * h, 0) <= 39847543 * (g * u)) by (nonlinear_arith)
        requires
            -39847543 * g <= h <= 39847543 * g,
            u > 0,
    ;
    assert(gap(e * f, 0) <= g * u) by (nonlinear_arith)
        requires
            -7 * g <= f <= 7 * g,
            -0x8000 * g <= e <= 0x8000 * g,
            0x400_0000_0000 * g == u,
            g > 0,
    ;
    assert(0x8_0000 * g * u == 0x8_0000 * (g * u)) by (nonlinear_arith);
    let z = mm * w;
    assert((z * u) * u == z * (u * u)) by (nonlinear_arith);
    assert((0x800_0000 * g) * u == 0x800_0000 * (g * u)) by (nonlinear_arith);
    lemma_cancel(d, z * u, 0x800_0000 * g, u);
}

/// The quotient, as many times as what it was divided by.
proof fn lemma_share(v: int, p: int, d: int, x: int, z: int, slip: int, g: int, u: int)
    requires
        0 < g <= u,
        -u <= v <= u,
        gap(4 * p, x * u) <= 0x8000 * g,
        gap(d, z * u) <= 0x800_0000 * g,
        0 <= d <= 0x4000_0000 * u,
        gap(v * d, p * u) <= slip * d,
        0 <= slip,
        slip * 0x4000_0000 <= 0x8_0000 * g,
    ensures
        gap(4 * (v * z), x * u) <= 0x6000_0000 * g,
{
    let t = d - z * u;
    assert(v * d == (v * z) * u + v * t) by (nonlinear_arith)
        requires
            d == z * u + t,
    ;
    assert(gap(v * t, 0) <= 0x800_0000 * (g * u)) by (nonlinear_arith)
        requires
            -u <= v <= u,
            -0x800_0000 * g <= t <= 0x800_0000 * g,
            g > 0,
    ;
    assert(slip * d <= 0x8_0000 * (g * u)) by (nonlinear_arith)
        requires
            0 <= d <= 0x4000_0000 * u,
            0 <= slip,
            slip * 0x4000_0000 <= 0x8_0000 * g,
            u > 0,
    ;
    let vz = v * z;
    assert((0x1000_0000 * g) * u == 0x1000_0000 * (g * u)) by (nonlinear_arith);
    assert(g * u > 0) by (nonlinear_arith)
        requires
            g > 0,
            u > 0,
    ;
    lemma_cancel(vz, p, 0x1000_0000 * g, u);
}

/// The two sides of the posterior, and their sum.
spec fn sides(c: &Arithmetic, k: int, n: int) -> (Double, Double, Double) {
    let zero = Double::from_bits(ZERO);
    let half = Double::from_bits(HALF);
    let y = c.of_count(n as u64);
    let x = c.of_count(k as u64).clamp(zero, y.larger(zero));
    let a = c.plus(half, x);
    let b = c.plus(half, c.minus(y, x).larger(zero));
    (a, b, c.plus(a, b))
}

proof fn lemma_sums(c: &Arithmetic, k: int, n: int)
    requires
        c.keeps_order(),
        c.is_accurate(),
        0 <= k <= n,
        1 <= n <= 1000,
    ensures
        ({
            let (a, b, sum) = sides(c, k, n);
            let (u, g) = (unit(), two_to(-42).exact());
            &&& a.abs().le(two_to(10))
            &&& b.abs().le(two_to(11))
            &&& a.is_finite() && b.is_finite() && sum.is_finite()
            &&& gap(2 * a.exact(), (2 * k + 1) * u) <= 2 * g
            &&& gap(2 * b.exact(), (2 * (n - k) + 1) * u) <= 6 * g
            &&& gap(sum.exact(), (n + 1) * u) <= 6 * g
        }),
{
    let zero = Double::from_bits(ZERO);
    let one = Double::from_bits(ONE);
    let half = Double::from_bits(HALF);
    let (x, y) = (c.of_count(k as u64), c.of_count(n as u64));
    let (u, g) = (unit(), two_to(-42).exact());
    lemma_scale();
    law_powers_are_ordered(-1, 0);
    assert(two_to(0) == one && two_to(-1) == half);
    assert(x.exact() == k * u && y.exact() == n * u) by {
        reveal(Arithmetic::is_accurate);
    }
    let (ku, nu) = (k * u, n * u);
    assert(0 <= ku <= nu && u <= nu <= 1000 * u) by (nonlinear_arith)
        requires
            ku == k * u,
            nu == n * u,
            0 <= k <= n,
            1 <= n <= 1000,
            u > 0,
    ;
    assert((2 * k + 1) * u == 2 * ku + u) by (nonlinear_arith)
        requires
            ku == k * u,
    ;
    assert((2 * (n - k) + 1) * u == 2 * nu - 2 * ku + u) by (nonlinear_arith)
        requires
            ku == k * u,
            nu == n * u,
    ;
    assert((n + 1) * u == nu + u) by (nonlinear_arith)
        requires
            nu == n * u,
    ;
    law_exact_orders(zero, x);
    law_exact_orders(x, y);
    law_exact_orders(zero, y);
    law_exact_orders(y, zero);
    law_exact_orders(zero, zero);
    assert(y.larger(zero) == y);
    assert(x.clamp(zero, y) == x);
    lemma_sum_near(c, half, x, 10);
    let a = c.plus(half, x);
    lemma_difference_near(c, y, x, 10);
    let rest = c.minus(y, x);
    law_exact_orders(rest, zero);
    law_exact_orders(zero, rest);
    let left = rest.larger(zero);
    lemma_sum_near(c, half, left, 11);
    let b = c.plus(half, left);
    lemma_sum_near(c, a, b, 12);
}

/// What the product of the sides is divided by, as a double.
spec fn divisor(c: &Arithmetic, sum: Double) -> Double {
    c.times(c.integer_power(sum, 2), c.plus(sum, Double::from_bits(ONE)))
}

proof fn lemma_cube(c: &Arithmetic, sum: Double, n: int)
    requires
        c.is_accurate(),
        c.has_functions(),
        1 <= n <= 1000,
        sum.is_finite(),
        gap(sum.exact(), (n + 1) * unit()) <= 6 * two_to(-42).exact(),
    ensures
        divisor(c, sum).abs().le(two_to(30)),
        divisor(c, sum).is_finite(),
        gap(divisor(c, sum).exact(), ((n + 1) * (n + 1) * (n + 2)) * unit()) <= 0x800_0000 * two_to(
            -42,
        ).exact(),
{
    let one = Double::from_bits(ONE);
    let (u, g, s) = (unit(), two_to(-42).exact(), sum.exact());
    lemma_scale();
    law_powers_are_ordered(0, 10);
    assert(2 * u <= (n + 1) * u <= 1001 * u) by (nonlinear_arith)
        requires
            1 <= n <= 1000,
            u > 0,
    ;
    assert(gap(s * s, 0) <= (0x10_0000 * u) * u) by (nonlinear_arith)
        requires
            0 <= s <= 0x400 * u,
    ;
    lemma_product_near(c, sum, sum, 20);
    let square = c.times(sum, sum);
    assert(c.integer_power(sum, 2) == square) by {
        reveal(Arithmetic::has_functions);
    }
    lemma_sum_near(c, sum, one, 10);
    let next = c.plus(sum, one);
    lemma_size(square, two_to(20));
    lemma_size(next, two_to(10));
    let (q, r) = (square.exact(), next.exact());
    assert(gap(q * r, 0) <= (0x4000_0000 * u) * u) by (nonlinear_arith)
        requires
            -0x10_0000 * u <= q <= 0x10_0000 * u,
            -0x400 * u <= r <= 0x400 * u,
    ;
    lemma_product_near(c, square, next, 30);
    lemma_divisor(s, q, r, divisor(c, sum).exact(), n, g, u);
}

/// Few odds are as many as a third of what they are divided by.
proof fn lemma_odds(k: int, n: int)
    requires
        0 <= k <= n,
        1 <= n <= 1000,
    ensures
        ({
            let odds = (2 * k + 1) * (2 * (n - k) + 1);
            let z = (n + 1) * (n + 1) * (n + 2);
            3 <= odds && 3 * odds <= z && 12 <= z <= 0x4000_0000
        }),
{
    let (x, y, m) = (2 * k + 1, 2 * (n - k) + 1, n + 1);
    assert(x * y <= m * m) by (nonlinear_arith)
        requires
            x + y == 2 * m,
    ;
    assert(x * y >= x + y - 1) by (nonlinear_arith)
        requires
            x >= 1,
            y >= 1,
    ;
    let mm = m * m;
    assert(4 <= mm <= 1002001) by (nonlinear_arith)
        requires
            2 <= m <= 1001,
            mm == m * m,
    ;
    assert(3 * mm <= mm * (n + 2) && mm * (n + 2) <= 1002001 * 1002) by (nonlinear_arith)
        requires
            4 <= mm <= 1002001,
            1 <= n <= 1000,
    ;
}

proof fn lemma_variance(c: &Arithmetic, k: int, n: int)
    requires
        c.keeps_order(),
        c.is_accurate(),
        c.has_functions(),
        0 <= k <= n,
        1 <= n <= 1000,
    ensures
        ({
            let (a, b, sum) = sides(c, k, n);
            let v = c.over(c.times(a, b), divisor(c, sum));
            let z = (n + 1) * (n + 1) * (n + 2);
            let odds = (2 * k + 1) * (2 * (n - k) + 1);
            &&& v.abs().le(Double::from_bits(ONE))
            &&& v.is_finite()
            &&& v.exact() > 0
            &&& gap(4 * (v.exact() * z), odds * unit()) <= 0x6000_0000 * two_to(-42).exact()
        }),
{
    let zero = Double::from_bits(ZERO);
    let one = Double::from_bits(ONE);
    let (a, b, sum) = sides(c, k, n);
    let (u, g) = (unit(), two_to(-42).exact());
    lemma_scale();
    lemma_sums(c, k, n);
    lemma_cube(c, sum, n);
    lemma_odds(k, n);
    law_powers_are_ordered(0, 0);
    let (f, h) = (a.exact(), b.exact());
    lemma_size(a, two_to(10));
    lemma_size(b, two_to(11));
    assert(gap(f * h, 0) <= (0x20_0000 * u) * u) by (nonlinear_arith)
        requires
            -0x400 * u <= f <= 0x400 * u,
            -0x800 * u <= h <= 0x800 * u,
    ;
    lemma_product_near(c, a, b, 21);
    let product = c.times(a, b);
    lemma_sides(f, h, k, n, g, u, product.exact());
    let below = divisor(c, sum);
    lemma_size(below, two_to(30));
    let (p, d) = (product.exact(), below.exact());
    let odds = (2 * k + 1) * (2 * (n - k) + 1);
    let z = (n + 1) * (n + 1) * (n + 2);
    let (ou, zu) = (odds * u, z * u);
    assert(3 * ou <= zu && ou >= 3 * u && zu >= 12 * u) by (nonlinear_arith)
        requires
            3 * odds <= z,
            odds >= 3,
            z >= 12,
            u > 0,
            ou == odds * u,
            zu == z * u,
    ;
    assert(u <= 2 * p && p <= d && d >= u);
    law_exact_orders(below, zero);
    law_exact_orders(zero, zero);
    assert(gap(p * u, 0) <= u * gap(d, 0)) by (nonlinear_arith)
        requires
            0 <= p <= d,
            u > 0,
    ;
    lemma_quotient_near(c, product, below, 0);
    let variance = c.over(product, below);
    lemma_size(variance, one);
    let (v, slip) = (variance.exact(), two_to(-53).exact());
    lemma_exact_power(-53);
    lemma_share(v, p, d, odds, z, slip, g, u);
    let vz = v * z;
    assert(v > 0) by (nonlinear_arith)
        requires
            vz > 0,
            vz == v * z,
            z > 0,
    ;
}

/// The deviation of the share of `k` out of `n`, with half a member added either way.
proof fn lemma_spread(c: &Arithmetic, k: int, n: int)
    requires
        c.keeps_order(),
        c.is_accurate(),
        c.has_functions(),
        c.has_roots(),
        0 <= k <= n,
        1 <= n <= 1000,
    ensures
        ({
            let half = Double::from_bits(HALF);
            let (_, std) = stats::posterior_of(
                c,
                c.of_count(k as u64),
                c.of_count(n as u64),
                half,
                half,
            );
            &&& !std.is_nan()
            &&& is_deviation(std, k, n)
        }),
{
    let zero = Double::from_bits(ZERO);
    let (a, b, sum) = sides(c, k, n);
    let (u, g) = (unit(), two_to(-42).exact());
    lemma_scale();
    lemma_odds(k, n);
    lemma_variance(c, k, n);
    let variance = c.over(c.times(a, b), divisor(c, sum));
    let v = variance.exact();
    law_exact_orders(zero, variance);
    law_exact_orders(variance, zero);
    law_exact_orders(zero, zero);
    assert(variance.larger(zero) == variance);
    law_powers_are_ordered(0, 2);
    let std = c.sqrt(variance);
    let near = two_to(-50).exact();
    assert(zero.le(variance) && variance.le(two_to(2)));
    assert(!std.is_nan() && gap(std.exact() * std.exact(), v * u) <= near * u) by {
        reveal(Arithmetic::has_roots);
    }
    let ss = std.exact() * std.exact();
    let z = (n + 1) * (n + 1) * (n + 2);
    let odds = (2 * k + 1) * (2 * (n - k) + 1);
    lemma_last_step(ss, v, v * z, z, odds, near, g, u);
    lemma_exact_power(-10);
    lemma_exact_power(-42);
    vstd::arithmetic::power2::lemma2_to64();
    vstd::arithmetic::power2::lemma_pow2_adds(32, 1032);
}

/// Whether a number is the deviation of a share of `k` out of `n`: its square, as often as there are
/// members and two more, is the share times what is left to one, with half a member added either
/// way, up to 2^-10 of the odds.
pub open spec fn is_deviation(std: Double, k: int, n: int) -> bool {
    gap(
        4 * ((std.exact() * std.exact()) * ((n + 1) * (n + 1) * (n + 2))),
        ((2 * k + 1) * (2 * (n - k) + 1)) * unit() * unit(),
    ) <= two_to(-10).exact() * unit()
}

proof fn lemma_last_step(ss: int, v: int, vz: int, z: int, odds: int, near: int, g: int, u: int)
    requires
        vz == v * z,
        12 <= z <= 0x4000_0000,
        0 < g,
        u > 0,
        0x100 * near == g,
        gap(4 * vz, odds * u) <= 0x6000_0000 * g,
        gap(ss, v * u) <= near * u,
    ensures
        gap(4 * (ss * z), odds * u * u) <= (0x1_0000_0000 * g) * u,
{
    let t = ss - v * u;
    assert(ss * z == vz * u + t * z) by (nonlinear_arith)
        requires
            ss == v * u + t,
            vz == v * z,
    ;
    assert(gap(t * z, 0) <= 0x40_0000 * (g * u)) by (nonlinear_arith)
        requires
            -(near * u) <= t <= near * u,
            12 <= z <= 0x4000_0000,
            0x100 * near == g,
            g > 0,
            u > 0,
    ;
    let e = 4 * vz - odds * u;
    assert(4 * (vz * u) == odds * u * u + e * u) by (nonlinear_arith)
        requires
            4 * vz == odds * u + e,
    ;
    assert(gap(e * u, 0) <= 0x6000_0000 * (g * u)) by (nonlinear_arith)
        requires
            -0x6000_0000 * g <= e <= 0x6000_0000 * g,
            u > 0,
    ;
    assert((0x1_0000_0000 * g) * u == 0x1_0000_0000 * (g * u)) by (nonlinear_arith);
    assert(g * u > 0) by (nonlinear_arith)
        requires
            g > 0,
            u > 0,
    ;
}

/// The deviation of an ensemble is that of the share of its members that make the contract pay, with
/// half a member added either way, unless that lies below the source's floor.
pub proof fn law_ensemble_is_as_sure_as_its_members(
    c: &Arithmetic,
    source: WeatherEnsembleSource,
    event: RawEvent,
    p: WeatherPayload,
    d: Direction,
)
    requires
        c.keeps_order(),
        c.is_accurate(),
        c.has_functions(),
        c.has_roots(),
        event.kind == AlphaEventKind::Weather,
        event.payload.weather == Some(p),
        direction_of(p) == Some(d),
        1 <= p.ensemble_forecast_tenths@.len() <= 1000,
        !source.min_std_dev.is_nan(),
    ensures
        match source.opinion(c, &event) {
            Some(e) => {
                let n = p.ensemble_forecast_tenths@.len() as int;
                let k = p.ensemble_forecast_tenths@.filter(
                    |f: i64| is_paid(d, p.threshold_tenths, f),
                ).len() as int;
                &&& source.min_std_dev.le(e.std_dev)
                &&& e.std_dev == source.min_std_dev || is_deviation(e.std_dev, k, n)
            },
            None => false,
        },
{
    let all = p.ensemble_forecast_tenths@;
    lemma_hits(all, p.threshold_tenths, d);
    lemma_spread(c, hits(all, p.threshold_tenths, d) as int, all.len() as int);
}

} // verus!
