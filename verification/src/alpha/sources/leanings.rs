//! Which way the directional sources lean, and how far.
use vstd::prelude::*;
use crate::alpha::log_odds::lemma_power_product;
use crate::alpha::opinions::lemma_inside;
use crate::alpha::payload::{
    CorrelatedAssetPayload, EconPayload, NewsPayload, OraclePayload, OrderFlowPayload,
    WeatherPayload,
};
use crate::alpha::source::AlphaSource;
use crate::alpha::sources::correlated_asset::{beta_of, residuals, CorrelatedAssetSource};
use crate::alpha::sources::econ::outlook;
use crate::alpha::sources::news::NewsSentimentSource;
use crate::alpha::sources::oracle::reading;
use crate::alpha::sources::order_flow_imbalance::OrderFlowImbalanceSource;
use crate::alpha::sources::weather::{direction_of, hits, WeatherEnsembleSource};
use crate::alpha::stats;
use crate::double::{Arithmetic, Double, HALF, ONE, ZERO};
use crate::rounding::{
    gap, law_exact_orders, law_powers_are_ordered, lemma_difference_near, lemma_exact_power,
    lemma_product_near, lemma_quotient_near, lemma_size, lemma_sum_near, two_to, unit,
};
use crate::sim::equity::lemma_product_sign;
use crate::types::alpha::{AlphaEventKind, EstimateKind, RawEvent, StalenessPolicy};
use crate::types::contract::Direction;
use crate::types::time::Timestamp;

verus! {

/// An order book that is heavier on the bid leans up and one heavier on the ask leans down: the
/// opinion is one half and the sensitivity times the difference of the sizes over their sum, up to
/// roundings. Sizes that are too thin say nothing.
pub proof fn law_the_heavier_side_is_the_likelier(
    c: &Arithmetic,
    source: OrderFlowImbalanceSource,
    event: RawEvent,
    p: OrderFlowPayload,
)
    requires
        c.is_accurate(),
        event.kind == AlphaEventKind::ReferenceAsset,
        event.payload.order_flow == Some(p),
        source.sensitivity.abs().le(two_to(-2)),
        Double::from_bits(ZERO).le(p.bid_size),
        p.bid_size.le(two_to(20)),
        Double::from_bits(ZERO).le(p.ask_size),
        p.ask_size.le(two_to(20)),
        Double::from_bits(ONE).le(source.min_total_size),
    ensures
        match source.opinion(c, &event) {
            Some(e) => {
                let (b, a) = (p.bid_size.exact(), p.ask_size.exact());
                &&& e.contract.0 == p.contract
                &&& e.std_dev == source.std_dev
                &&& e.as_of == event.receive_ts
                &&& gap(
                    (2 * e.probability.exact() - unit()) * (b + a),
                    2 * (source.sensitivity.exact() * (b - a)),
                ) <= 8 * two_to(-31).exact() * (b + a)
            },
            None => c.plus(p.bid_size, p.ask_size).lt(source.min_total_size),
        },
{
    let zero = Double::from_bits(ZERO);
    let one = Double::from_bits(ONE);
    let half = Double::from_bits(HALF);
    let (u, most) = (unit(), two_to(20).exact());
    if source.opinion(c, &event) is Some {
        lemma_exact_power(-53);
        lemma_exact_power(-52);
        lemma_exact_power(-33);
        lemma_exact_power(-32);
        lemma_exact_power(-31);
        lemma_exact_power(-2);
        lemma_exact_power(-1);
        lemma_exact_power(0);
        lemma_exact_power(20);
        assert(two_to(0) == one && two_to(-1) == half);
        law_powers_are_ordered(0, 20);
        law_exact_orders(zero, p.bid_size);
        law_exact_orders(p.bid_size, two_to(20));
        law_exact_orders(zero, p.ask_size);
        law_exact_orders(p.ask_size, two_to(20));
        let (b, a) = (p.bid_size.exact(), p.ask_size.exact());
        lemma_sum_near(c, p.bid_size, p.ask_size, 21);
        let total = c.plus(p.bid_size, p.ask_size);
        lemma_difference_near(c, p.bid_size, p.ask_size, 20);
        let diff = c.minus(p.bid_size, p.ask_size);
        assert(source.min_total_size.le(total) || source.min_total_size.is_nan()
            || total.is_nan());
        assert(one.le(total));
        law_exact_orders(one, total);
        law_exact_orders(total, zero);
        law_exact_orders(zero, zero);
        let (d, t) = (diff.exact(), total.exact());
        let (e, f) = (two_to(-33).exact(), two_to(-32).exact());
        law_powers_are_ordered(-32, -2);
        law_exact_orders(two_to(-32), two_to(-2));
        assert(gap(d * u, 0) <= (2 * u) * gap(t, 0)) by (nonlinear_arith)
            requires
                gap(d, b - a) <= e,
                gap(t, b + a) <= f,
                t >= u,
                b >= 0,
                a >= 0,
                4 * f <= u,
                e <= f,
                u > 0,
        ;
        lemma_quotient_near(c, diff, total, 1);
        let imbalance = c.over(diff, total);
        lemma_size(imbalance, two_to(1));
        lemma_size(source.sensitivity, two_to(-2));
        let (q, s, h) = (imbalance.exact(), source.sensitivity.exact(), two_to(-2).exact());
        let x_half = half.exact();
        assert(gap(s * q, 0) <= x_half * u) by (nonlinear_arith)
            requires
                -h <= s <= h,
                -2 * u <= q <= 2 * u,
                x_half == 2 * h,
                h > 0,
                u > 0,
        ;
        lemma_product_near(c, source.sensitivity, imbalance, -1);
        let shift = c.times(source.sensitivity, imbalance);
        lemma_size(shift, half);
        lemma_sum_near(c, half, shift, 0);
        let raw = c.plus(half, shift);
        let (x, r, g) = (shift.exact(), raw.exact(), two_to(-52).exact());
        lemma_exact_power(-54);
        law_powers_are_ordered(-52, -32);
        law_exact_orders(two_to(-52), two_to(-32));
        law_powers_are_ordered(-32, -8);
        law_exact_orders(two_to(-32), two_to(-8));
        lemma_exact_power(-8);
        lemma_exact_power(-7);
        lemma_exact_power(-6);
        lemma_exact_power(-5);
        lemma_exact_power(-4);
        lemma_exact_power(-3);
        let below_54 = two_to(-54).exact();
        assert(below_54 * u <= g * u) by (nonlinear_arith)
            requires
                below_54 <= g,
                u > 0,
        ;
        lemma_flow(s, q, x, r, d, t, b, a, u, h, g, f);
        let below_31 = two_to(-31).exact();
        assert(8 * below_31 * (b + a) == 16 * f * (b + a)) by (nonlinear_arith)
            requires
                below_31 == 2 * f,
        ;
        // Neither bound is reached.
        law_powers_are_ordered(-3, 0);
        lemma_exact_power(-10);
        law_powers_are_ordered(-10, -3);
        assert(two_to(-10).le(raw)) by {
            law_exact_orders(two_to(-10), two_to(-3));
            law_exact_orders(two_to(-10), raw);
        }
        let below = Double::from_bits(0x3FEF_0000_0000_0000);
        assert(raw.le(below)) by {
            lemma_below();
            law_exact_orders(raw, below);
        }
        assert(two_to(-10).bits == 0x3F50_0000_0000_0000);
        assert(stats::clamp_probability(raw) == raw);
    }
}

proof fn lemma_below()
    ensures
        32 * Double::from_bits(0x3FEF_0000_0000_0000).exact() == 31 * unit(),
{
    let step = crate::rounding::EXPONENT as int;
    let m = 0x3FEF_0000_0000_0000int;
    assert(m / step == 1022 && m % step == 0xF_0000_0000_0000);
    lemma_exact_power(0);
    let p = vstd::arithmetic::power2::pow2(1021) as int;
    vstd::arithmetic::power2::lemma2_to64();
    vstd::arithmetic::power2::lemma_pow2_adds(32, 21);
    vstd::arithmetic::power2::lemma_pow2_adds(53, 1021);
    assert(vstd::arithmetic::power2::pow2(53) == 0x20_0000_0000_0000);
    assert(Double::from_bits(0x3FEF_0000_0000_0000).exact() == (step + 0xF_0000_0000_0000) * p);
    assert(32 * ((step + 0xF_0000_0000_0000) * p) == 31 * (0x20_0000_0000_0000 * p))
        by (nonlinear_arith)
        requires
            step == 0x10_0000_0000_0000,
    ;
}

proof fn lemma_flow(
    s: int,
    q: int,
    x: int,
    r: int,
    d: int,
    t: int,
    b: int,
    a: int,
    u: int,
    h: int,
    g: int,
    f: int,
)
    requires
        u > 0,
        u == 4 * h,
        0 < g <= f,
        64 * f <= h,
        -h <= s <= h,
        b >= 0,
        a >= 0,
        t >= u,
        gap(t, b + a) <= f,
        gap(d, b - a) <= f,
        gap(q * t, d * u) <= g * gap(t, 0),
        gap(x * u, s * q) <= g * u,
        gap(2 * r, u + 2 * x) <= 2 * g,
    ensures
        gap((2 * r - u) * (b + a), 2 * (s * (b - a))) <= 16 * f * (b + a),
        u <= 8 * r,
        8 * r <= 7 * u,
{
    let (all, diff) = (b + a, b - a);
    let slack = f * all;
    assert(2 * all >= u);
    assert(t <= 2 * all);
    assert(slack >= 0) by (nonlinear_arith)
        requires
            slack == f * all,
            f > 0,
            all >= 0,
    ;
    // How large the imbalance can be.
    assert(-(u + 3 * f) <= q <= u + 3 * f) by (nonlinear_arith)
        requires
            gap(q * t, d * u) <= g * t,
            -(t + 2 * f) <= d <= t + 2 * f,
            t >= u,
            u > 0,
            0 < g <= f,
    ;
    assert(-(h * u + u * f) <= s * q <= h * u + u * f) by (nonlinear_arith)
        requires
            -(u + 3 * f) <= q <= u + 3 * f,
            -h <= s <= h,
            h > 0,
            f > 0,
            u == 4 * h,
    ;
    assert(-(h + 2 * f) <= x <= h + 2 * f) by (nonlinear_arith)
        requires
            gap(x * u, s * q) <= g * u,
            -(h * u + u * f) <= s * q <= h * u + u * f,
            0 < g <= f,
            u > 0,
    ;
    // Each rounding, over the sum of the sizes.
    assert(gap((2 * r - u) * all * u, 2 * (x * u * all)) <= 2 * (slack * u)) by (nonlinear_arith)
        requires
            gap(2 * r, u + 2 * x) <= 2 * g,
            0 < g <= f,
            slack == f * all,
            all >= 0,
            u > 0,
    ;
    assert(gap(x * u * all, s * q * all) <= slack * u) by (nonlinear_arith)
        requires
            gap(x * u, s * q) <= g * u,
            0 < g <= f,
            slack == f * all,
            all >= 0,
            u > 0,
    ;
    assert(gap(s * q * all, s * q * t) <= slack * u) by (nonlinear_arith)
        requires
            gap(t, all) <= f,
            -(h * u + u * f) <= s * q <= h * u + u * f,
            64 * f <= h,
            u == 4 * h,
            2 * all >= u,
            slack == f * all,
            f > 0,
            h > 0,
    ;
    let (m, n) = (q * t, d * u);
    assert(gap(s * m, s * n) <= h * (g * t)) by (nonlinear_arith)
        requires
            gap(m, n) <= g * t,
            -h <= s <= h,
    ;
    assert(s * q * t == s * m && s * d * u == s * n) by (nonlinear_arith)
        requires
            m == q * t,
            n == d * u,
    ;
    assert(g * t <= 2 * slack) by (nonlinear_arith)
        requires
            t <= 2 * all,
            t > 0,
            slack == f * all,
            0 < g <= f,
    ;
    assert(h * (g * t) <= slack * u) by (nonlinear_arith)
        requires
            g * t <= 2 * slack,
            0 < h,
            u == 4 * h,
            slack >= 0,
    ;
    assert(gap(s * d * u, s * diff * u) <= slack * u) by (nonlinear_arith)
        requires
            gap(d, diff) <= f,
            -h <= s <= h,
            u == 4 * h,
            2 * all >= u,
            slack == f * all,
            f > 0,
            h > 0,
    ;
    let (left, right) = ((2 * r - u) * all, 2 * (s * diff));
    assert(right * u == 2 * (s * diff * u)) by (nonlinear_arith)
        requires
            right == 2 * (s * diff),
    ;
    assert(gap(left * u, right * u) <= 10 * (slack * u));
    assert(gap(left, right) <= 10 * slack) by (nonlinear_arith)
        requires
            gap(left * u, right * u) <= 10 * (slack * u),
            u > 0,
    ;
    assert(16 * f * all == 16 * slack && slack >= 0) by (nonlinear_arith)
        requires
            slack == f * all,
            f > 0,
            all >= 0,
    ;
}

/// A headline shifts the log-odds by its polarity times its relevance times the sensitivity, up to
/// roundings: towards the side that it speaks for, and further the more it concerns the contract.
/// Its deviation is one half over its relevance. One that hardly concerns the contract says
/// nothing.
pub proof fn law_headline_shifts_towards_its_polarity(
    c: &Arithmetic,
    source: NewsSentimentSource,
    event: RawEvent,
    p: NewsPayload,
)
    requires
        c.is_accurate(),
        event.kind == AlphaEventKind::NewsHeadline,
        event.payload.news == Some(p),
        p.polarity.abs().le(Double::from_bits(ONE)),
        Double::from_bits(ZERO).le(p.relevance),
        p.relevance.le(Double::from_bits(ONE)),
        source.sensitivity.abs().le(two_to(2)),
        source.min_relevance.is_finite(),
    ensures
        match source.opinion(c, &event) {
            Some(e) => {
                &&& source.min_relevance.le(p.relevance)
                &&& e.contract.0 == p.contract
                &&& e.kind == EstimateKind::LogOddsShift
                &&& e.as_of == event.receive_ts
                &&& gap(
                    e.probability.exact() * unit() * unit(),
                    p.polarity.exact() * p.relevance.exact() * source.sensitivity.exact(),
                ) <= 8 * two_to(-53).exact() * unit() * unit()
                &&& two_to(-2).le(p.relevance) ==> gap(
                    2 * (e.std_dev.exact() * p.relevance.exact()),
                    unit() * unit(),
                ) <= 2 * two_to(-52).exact() * unit()
            },
            None => p.relevance.lt(source.min_relevance),
        },
{
    let zero = Double::from_bits(ZERO);
    let one = Double::from_bits(ONE);
    let half = Double::from_bits(HALF);
    let u = unit();
    if source.opinion(c, &event) is Some {
        lemma_exact_power(-53);
        lemma_exact_power(-52);
        lemma_exact_power(-51);
        lemma_exact_power(-2);
        lemma_exact_power(-1);
        lemma_exact_power(0);
        lemma_exact_power(1);
        assert(two_to(0) == one && two_to(-1) == half);
        law_powers_are_ordered(-2, 2);
        law_powers_are_ordered(0, 2);
        lemma_size(p.polarity, one);
        law_exact_orders(zero, p.relevance);
        law_exact_orders(p.relevance, one);
        lemma_size(source.sensitivity, two_to(2));
        assert(p.polarity.clamp(one.neg(), one) == p.polarity);
        assert(p.relevance.clamp(zero, one) == p.relevance);
        let (x, y, s) = (p.polarity.exact(), p.relevance.exact(), source.sensitivity.exact());
        assert(gap(x * y, 0) <= u * u) by (nonlinear_arith)
            requires
                -u <= x <= u,
                0 <= y <= u,
        ;
        lemma_product_near(c, p.polarity, p.relevance, 0);
        let t = c.times(p.polarity, p.relevance);
        lemma_size(t, one);
        let z = t.exact();
        assert(gap(z * s, 0) <= (4 * u) * u) by (nonlinear_arith)
            requires
                -u <= z <= u,
                -4 * u <= s <= 4 * u,
        ;
        lemma_product_near(c, t, source.sensitivity, 2);
        let (w, e) = (c.times(t, source.sensitivity).exact(), two_to(-53).exact());
        assert(gap(w * u * u, z * s * u) <= 4 * e * u * u) by (nonlinear_arith)
            requires
                gap(w * u, z * s) <= (4 * e) * u,
                u > 0,
        ;
        assert(gap(z * s * u, x * y * s) <= 4 * e * u * u) by (nonlinear_arith)
            requires
                gap(z * u, x * y) <= e * u,
                -4 * u <= s <= 4 * u,
                u > 0,
                e > 0,
        ;
        assert(8 * e * u * u == 4 * e * u * u + 4 * e * u * u) by (nonlinear_arith);
        assert(source.min_relevance.le(p.relevance));
        let scale = p.relevance.larger(source.min_relevance);
        assert(scale.same(p.relevance));
        law_exact_orders(scale, p.relevance);
        law_exact_orders(p.relevance, scale);
        if two_to(-2).le(p.relevance) {
            law_exact_orders(two_to(-2), scale);
            law_exact_orders(scale, zero);
            law_exact_orders(zero, zero);
            let h = half.exact();
            assert(gap(h * u, 0) <= (2 * u) * gap(y, 0)) by (nonlinear_arith)
                requires
                    2 * h == u,
                    4 * y >= u,
                    u > 0,
            ;
            lemma_quotient_near(c, half, scale, 1);
            let std = c.over(half, scale);
            assert(std.smaller(Double::from_bits(crate::alpha::sources::news::MAX_SHIFT_STD)) == std);
            let v = std.exact();
            let d = two_to(-52).exact();
            assert(gap(2 * (v * y), u * u) <= 2 * d * u) by (nonlinear_arith)
                requires
                    gap(v * y, h * u) <= d * gap(y, 0),
                    2 * h == u,
                    0 <= y <= u,
                    d > 0,
            ;
        }
    }
}

/// A correlated asset leans the way of what its driver leaves unexplained: up where it did better
/// than the driver predicts, down where it did worse, and never further from one half than the
/// sensitivity.
pub proof fn law_only_the_unexplained_move_counts(
    c: &Arithmetic,
    source: CorrelatedAssetSource,
    event: RawEvent,
    p: CorrelatedAssetPayload,
    beta: Double,
)
    requires
        c.is_ieee(),
        c.keeps_order(),
        c.rounds(),
        c.rounds_differences(),
        c.is_accurate(),
        c.bends(),
        event.kind == AlphaEventKind::ReferenceAsset,
        event.payload.correlated_asset == Some(p),
        p.correlated_returns.len() == p.driver_returns.len(),
        p.correlated_returns.len() >= 2,
        beta_of(c, p.driver_returns@, p.correlated_returns@) == Some(beta),
        Double::from_bits(ZERO).le(source.sensitivity),
        source.sensitivity.le(two_to(-2)),
        Double::from_bits(ZERO).lt(source.min_std_dev),
        source.min_std_dev.is_finite(),
        p.current_correlated_return.abs().le(two_to(20)),
        c.times(beta, p.current_driver_return).abs().le(two_to(20)),
    ensures
        match source.opinion(c, &event) {
            Some(e) => {
                let half = Double::from_bits(HALF);
                let (now, expected) = (
                    p.current_correlated_return,
                    c.times(beta, p.current_driver_return),
                );
                &&& e.contract.0 == p.contract
                &&& e.std_dev == source.base_std_dev
                &&& expected.le(now) ==> half.le(e.probability)
                &&& now.le(expected) ==> e.probability.le(half)
                &&& e.probability.le(c.plus(half, source.sensitivity))
                &&& c.plus(half, source.sensitivity.neg()).le(e.probability)
            },
            None => false,
        },
{
    let zero = Double::from_bits(ZERO);
    let one = Double::from_bits(ONE);
    let half = Double::from_bits(HALF);
    let (now, expected) = (p.current_correlated_return, c.times(beta, p.current_driver_return));
    let rest = residuals(c, p.correlated_returns@, p.driver_returns@, beta);
    let n = c.of_count(rest.len() as u64);
    let mean = c.over(stats::total(c, rest), n);
    let std = c.sqrt(c.over(stats::squares(c, rest, mean), c.minus(n, one))).larger(
        source.min_std_dev,
    );
    assert(zero.lt(std) && std.bits <= crate::double::INFINITY);
    lemma_exact_power(20);
    lemma_exact_power(0);
    lemma_exact_power(-1);
    lemma_exact_power(-2);
    law_powers_are_ordered(20, 21);
    law_powers_are_ordered(-2, 0);
    lemma_size(now, two_to(20));
    lemma_size(expected, two_to(20));
    lemma_difference_near(c, now, expected, 21);
    let r = c.minus(now, expected);
    reveal(Arithmetic::rounds_differences);
    assert(expected.le(now) ==> zero.le(r));
    assert(now.le(expected) ==> r.le(zero));
    let z = c.over(r, std);
    assert(!z.is_nan() && (zero.le(r) ==> zero.le(z)) && (r.le(zero) ==> z.le(zero))) by {
        reveal(Arithmetic::rounds_quotients);
        if r.lt(zero) {
            assert(zero.le(c.over(r.neg(), std)));
            assert(r.neg().neg() == r);
            assert(c.over(r.neg().neg(), std) == c.over(r.neg(), std).neg());
        } else {
            assert(zero.le(c.over(r, std)));
            if r.is_zero() {
                assert(c.over(r, std).is_zero());
            }
        }
    }
    reveal(Arithmetic::bends);
    let t = c.tanh(z);
    assert(t.is_finite());
    let s = source.sensitivity;
    lemma_product_sign(c, s, t);
    let shift = c.times(s, t);
    assert(c.times(s, one) == s);
    assert(c.times(s, one.neg()) == s.neg()) by {
        reveal(Arithmetic::rounds_products);
    }
    assert(shift.le(s) && s.neg().le(shift));
    assert(two_to(-1) == half && two_to(0) == one);
    law_exact_orders(s, two_to(-2));
    law_exact_orders(shift, s);
    law_exact_orders(s.neg(), shift);
    lemma_sum_near(c, half, shift, 0);
    let raw = c.plus(half, shift);
    assert(!c.plus(half, s).is_nan() && !c.plus(half, s.neg()).is_nan()) by {
        reveal(Arithmetic::rounds_sums);
    }
    assert(raw.le(c.plus(half, s)) && c.plus(half, s.neg()).le(raw));
    assert(c.plus(half, zero) == half);
    assert(zero.le(shift) ==> half.le(raw));
    assert(shift.le(zero) ==> raw.le(half));
    // Neither bound is reached.
    lemma_exact_power(-3);
    lemma_exact_power(-53);
    law_powers_are_ordered(-53, -3);
    law_exact_orders(two_to(-53), two_to(-3));
    law_exact_orders(two_to(-3), raw);
    assert(two_to(-3).bits == 0x3FC0_0000_0000_0000);
    let below = Double::from_bits(0x3FEF_0000_0000_0000);
    lemma_below();
    law_exact_orders(raw, below);
    assert(stats::clamp_probability(raw) == raw);
}

/// Whether a forecast makes a contract with this direction and threshold pay.
pub open spec fn is_paid(direction: Direction, threshold: i64, forecast: i64) -> bool {
    match direction {
        Direction::GreaterThan => threshold < forecast,
        Direction::LessThan => forecast < threshold,
        Direction::Between { upper } => threshold <= forecast && forecast <= upper,
    }
}

/// The hits are the forecasts that make the contract pay.
pub proof fn lemma_hits(forecasts: Seq<i64>, threshold: i64, d: Direction)
    ensures
        hits(forecasts, threshold, d) == forecasts.filter(
            |f: i64| is_paid(d, threshold, f),
        ).len(),
        hits(forecasts, threshold, d) <= forecasts.len(),
    decreases forecasts.len(),
{
    reveal(Seq::filter);
    if forecasts.len() > 0 {
        lemma_hits(forecasts.drop_last(), threshold, d);
    }
}

/// The opinion of an ensemble is the share of its members that make the contract pay, with half a
/// member added either way, up to roundings.
pub proof fn law_ensemble_votes_by_share(
    c: &Arithmetic,
    source: WeatherEnsembleSource,
    event: RawEvent,
    p: WeatherPayload,
    d: Direction,
)
    requires
        c.keeps_order(),
        c.is_accurate(),
        event.kind == AlphaEventKind::Weather,
        event.payload.weather == Some(p),
        direction_of(p) == Some(d),
        1 <= p.ensemble_forecast_tenths@.len() <= 1000,
    ensures
        match source.opinion(c, &event) {
            Some(e) => {
                let n = p.ensemble_forecast_tenths@.len();
                let k = p.ensemble_forecast_tenths@.filter(
                    |f: i64| is_paid(d, p.threshold_tenths, f),
                ).len();
                &&& e.contract.0 == p.contract
                &&& gap(2 * (e.probability.exact() * (n + 1)), (2 * k + 1) * unit()) <= 32
                    * two_to(-42).exact()
            },
            None => false,
        },
{
    let all = p.ensemble_forecast_tenths@;
    lemma_hits(all, p.threshold_tenths, d);
    let (n, k) = (all.len() as int, hits(all, p.threshold_tenths, d) as int);
    lemma_posterior(c, k, n);
}

proof fn lemma_posterior(c: &Arithmetic, k: int, n: int)
    requires
        c.keeps_order(),
        c.is_accurate(),
        0 <= k <= n,
        1 <= n <= 1000,
    ensures
        ({
            let half = Double::from_bits(HALF);
            let (mean, _) = stats::posterior_of(
                c,
                c.of_count(k as u64),
                c.of_count(n as u64),
                half,
                half,
            );
            gap(2 * (mean.exact() * (n + 1)), (2 * k + 1) * unit()) <= 32 * two_to(-42).exact()
        }),
{
    let zero = Double::from_bits(ZERO);
    let one = Double::from_bits(ONE);
    let half = Double::from_bits(HALF);
    let (x, y) = (c.of_count(k as u64), c.of_count(n as u64));
    let u = unit();
    lemma_exact_power(-53);
    lemma_exact_power(-43);
    lemma_exact_power(-42);
    lemma_exact_power(-1);
    lemma_exact_power(0);
    lemma_thousand();
    assert(two_to(0) == one && two_to(-1) == half);
    assert(x.exact() == k * u && y.exact() == n * u) by {
        reveal(Arithmetic::is_accurate);
    }
    assert(0 <= k * u <= n * u && u <= n * u <= 1000 * u && (n - k) * u == n * u - k * u)
        by (nonlinear_arith)
        requires
            0 <= k <= n,
            1 <= n <= 1000,
            u > 0,
    ;
    law_exact_orders(zero, x);
    law_exact_orders(x, y);
    law_exact_orders(zero, y);
    law_exact_orders(y, zero);
    law_exact_orders(zero, zero);
    assert(y.larger(zero) == y);
    assert(x.clamp(zero, y) == x);
    let g = two_to(-42).exact();
    lemma_sum_near(c, half, x, 10);
    let a = c.plus(half, x);
    lemma_difference_near(c, y, x, 10);
    let rest = c.minus(y, x);
    law_exact_orders(rest, zero);
    law_exact_orders(zero, rest);
    let left = rest.larger(zero);
    lemma_sum_near(c, half, left, 11);
    let b = c.plus(half, left);
    lemma_sum_near(c, a, b, 12);
    let sum = c.plus(a, b);
    lemma_exact_power(-41);
    let (f, s) = (a.exact(), sum.exact());
    assert(gap(f, k * u + half.exact()) <= g);
    assert(gap(s, n * u + u) <= 6 * g);
    law_exact_orders(sum, zero);
    assert(gap(f * u, 0) <= (2 * u) * gap(s, 0)) by (nonlinear_arith)
        requires
            0 <= f <= s + 7 * g,
            s >= u,
            7 * g <= u,
            u > 0,
    ;
    lemma_quotient_near(c, a, sum, 1);
    let mean = c.over(a, sum);
    lemma_size(mean, two_to(1));
    let (m, e) = (mean.exact(), two_to(-52).exact());
    lemma_exact_power(-52);
    lemma_exact_power(1);
    law_powers_are_ordered(-52, -42);
    law_exact_orders(two_to(-52), two_to(-42));
    let w = n + 1;
    assert(w * u == n * u + u) by (nonlinear_arith)
        requires
            w == n + 1,
    ;
    // The quotient times the exact sum is near the exact numerator.
    assert(gap(m * (w * u), m * s) <= 12 * (g * u)) by (nonlinear_arith)
        requires
            gap(s, w * u) <= 6 * g,
            -2 * u <= m <= 2 * u,
            g > 0,
    ;
    assert(e * gap(s, 0) <= g * u) by {
        lemma_power_product(-52, 10);
        lemma_power_product(0, -42);
        assert(s <= 1024 * u);
        assert(e * s <= e * (1024 * u)) by (nonlinear_arith)
            requires
                s <= 1024 * u,
                e > 0,
        ;
        assert(e * two_to(10).exact() == g * u);
    }
    let v = m * w;
    assert(m * (w * u) == v * u) by (nonlinear_arith)
        requires
            v == m * w,
    ;
    assert(gap(v * u, f * u) <= 13 * (g * u));
    assert(gap(v, f) <= 13 * g) by (nonlinear_arith)
        requires
            gap(v * u, f * u) <= 13 * (g * u),
            u > 0,
    ;
    assert((2 * k + 1) * u == 2 * (k * u) + u) by (nonlinear_arith);
    assert(gap(2 * v, (2 * k + 1) * u) <= 28 * g);
    // The mean is well inside.
    assert(two_to(-11).exact() <= m <= u - two_to(-11).exact()) by {
        let t = two_to(-11).exact();
        lemma_exact_power(-11);
        lemma_eleven();
        assert(u == 2048 * t);
        assert(m >= t) by (nonlinear_arith)
            requires
                m * w >= u / 2 - 14 * g,
                u == 2048 * t,
                1000 * g <= t,
                w <= 1001,
                w >= 2,
                t > 0,
        ;
        assert(m <= u - t) by (nonlinear_arith)
            requires
                m * w <= w * u - u / 2 + 14 * g,
                u == 2048 * t,
                1000 * g <= t,
                2 <= w <= 1001,
                t > 0,
        ;
    }
    lemma_inside(mean, 11);
}

proof fn lemma_thousand()
    ensures
        1000 * unit() + 2 * unit() <= two_to(10).exact(),
        two_to(10).exact() == 1024 * unit(),
        two_to(11).exact() == 2048 * unit(),
        two_to(12).exact() == 4096 * unit(),
        64 * two_to(-42).exact() <= unit(),
        unit() > 0,
{
    lemma_exact_power(0);
    lemma_exact_power(1);
    lemma_exact_power(2);
    lemma_exact_power(3);
    lemma_exact_power(4);
    lemma_exact_power(5);
    lemma_exact_power(6);
    lemma_exact_power(7);
    lemma_exact_power(8);
    lemma_exact_power(9);
    lemma_exact_power(10);
    lemma_exact_power(11);
    lemma_exact_power(-6);
    lemma_exact_power(-5);
    lemma_exact_power(-4);
    lemma_exact_power(-3);
    lemma_exact_power(-2);
    lemma_exact_power(-1);
    assert(two_to(0) == Double::from_bits(ONE));
    law_powers_are_ordered(-42, -6);
    law_exact_orders(two_to(-42), two_to(-6));
}

proof fn lemma_eleven()
    ensures
        2048 * two_to(-11).exact() == unit(),
        1000 * two_to(-42).exact() <= two_to(-11).exact(),
{
    lemma_exact_power(-11);
    lemma_exact_power(-10);
    lemma_exact_power(-9);
    lemma_exact_power(-8);
    lemma_exact_power(-7);
    lemma_exact_power(-6);
    lemma_exact_power(-5);
    lemma_exact_power(-4);
    lemma_exact_power(-3);
    lemma_exact_power(-2);
    lemma_exact_power(-1);
    lemma_exact_power(0);
    assert(two_to(0) == Double::from_bits(ONE));
    lemma_exact_power(-21);
    lemma_exact_power(-20);
    lemma_exact_power(-19);
    lemma_exact_power(-18);
    lemma_exact_power(-17);
    lemma_exact_power(-16);
    lemma_exact_power(-15);
    lemma_exact_power(-14);
    lemma_exact_power(-13);
    lemma_exact_power(-12);
    law_powers_are_ordered(-42, -21);
    law_exact_orders(two_to(-42), two_to(-21));
}

/// Before the print a release is priced by the consensus and by the surprise that was fitted to its
/// series, or by its own where none was; after it by the print and by what revision remains. The
/// other numbers do not matter.
pub proof fn law_print_replaces_the_consensus(
    payload: EconPayload,
    other: EconPayload,
    fitted: Map<Seq<char>, Double>,
)
    requires
        payload.series == other.series,
        payload.contract == other.contract,
        payload.actual == other.actual,
    ensures
        payload.actual is Some && payload.post_release_std == other.post_release_std ==> outlook(
            payload,
            fitted,
        ) == outlook(other, fitted),
        payload.actual matches Some(print) ==> outlook(payload, fitted).0 == print,
        payload.actual is None ==> outlook(payload, fitted).0 == payload.consensus,
        payload.actual is None && payload.consensus == other.consensus && payload.surprise_std
            == other.surprise_std ==> outlook(payload, fitted) == outlook(other, fitted),
        payload.actual is None && payload.consensus == other.consensus && payload.series is Some
            && fitted.contains_key(payload.series->0@) ==> outlook(payload, fitted) == outlook(
            other,
            fitted,
        ),
{
}

/// A resolution is read towards the side it names: above one half for yes, below it for no. Once
/// final it is surer than while it can be challenged, and it is final from the moment its window
/// ends.
pub proof fn law_resolution_is_read_towards_its_side(payload: OraclePayload, now: Timestamp)
    ensures
        ({
            let half = Double::from_bits(HALF);
            let (p, std, staleness) = reading(payload, now);
            let closed = payload.challenge_window_ends_ns is None
                || payload.challenge_window_ends_ns->0 <= now.0;
            let open = OraclePayload { challenge_window_ends_ns: Some(i64::MAX), ..payload };
            let (q, dev, _) = reading(open, now);
            &&& payload.resolved_yes ==> half.lt(p)
            &&& !payload.resolved_yes ==> p.lt(half)
            &&& staleness == StalenessPolicy::Permanent <==> closed
            &&& closed && now.0 < i64::MAX ==> std.lt(dev)
            &&& closed && now.0 < i64::MAX && payload.resolved_yes ==> q.lt(p)
            &&& closed && now.0 < i64::MAX && !payload.resolved_yes ==> p.lt(q)
        }),
{
}

} // verus!
