//! What opinions make of a fair value: one alone is the fair value, two pull it towards themselves
//! by their weight, and a weight is an inverse variance that age and company cut down.
use vstd::prelude::*;
use crate::alpha::aggregator::{
    aged_std, combined, dispersion, fair_view, group_size, haircut, has_group, in_group, of_kind,
    pool, sample_size, usable, weight, AggregatorConfig, DECAY_FLOOR,
};
use crate::alpha::confidence::is_floating_point;
use crate::alpha::log_odds::{lemma_power_product, lemma_weighed};
use crate::alpha::stats;
use crate::double::{Arithmetic, Double, HALF, ONE, ZERO};
use crate::rounding::{
    gap, law_exact_orders, law_powers_are_ordered, lemma_difference_near, lemma_exact_power,
    lemma_product_near, lemma_quotient_near, lemma_size, lemma_sum_near, two_to, unit, EXPONENT,
};
use crate::types::alpha::{EstimateKind, ProbabilityEstimate, StalenessPolicy};
use crate::types::contract::CanonicalContractId;
use crate::types::time::Timestamp;
use vstd::arithmetic::power2::{lemma2_to64, lemma_pow2_adds, pow2};

verus! {

/// 1 - 2^-13
const BELOW_ONE: u64 = 0x3FEF_FF00_0000_0000;

proof fn lemma_below_one()
    ensures
        Double::from_bits(BELOW_ONE).exact() + two_to(-13).exact() == unit(),
        Double::from_bits(BELOW_ONE).le(Double::from_bits(stats::PROB_CEILING)),
        Double::from_bits(stats::PROB_EPSILON).le(two_to(-13)),
{
    let step = EXPONENT as int;
    let m = BELOW_ONE as int;
    assert(m / step == 1022 && m % step == 0xF_FF00_0000_0000);
    lemma_exact_power(-13);
    lemma_exact_power(0);
    let p = pow2(1021) as int;
    lemma2_to64();
    lemma_pow2_adds(32, 8);
    lemma_pow2_adds(32, 21);
    lemma_pow2_adds(40, 1021);
    lemma_pow2_adds(53, 1021);
    assert(pow2(40) == 0x100_0000_0000);
    assert(pow2(53) == 0x20_0000_0000_0000);
    assert(Double::from_bits(BELOW_ONE).exact() == (step + 0xF_FF00_0000_0000) * p);
    assert((step + 0xF_FF00_0000_0000) * p + 0x100_0000_0000 * p == 0x20_0000_0000_0000 * p)
        by (nonlinear_arith)
        requires
            step == 0x10_0000_0000_0000,
    ;
    assert(two_to(-13).bits == 0x3F20_0000_0000_0000);
}

/// Whether a number keeps `2^-n` from 0 and from 1.
pub open spec fn is_inside(p: Double, n: int) -> bool {
    p.is_finite() && two_to(-n).exact() <= p.exact() <= unit() - two_to(-n).exact()
}

/// What is inside by 2^-13 is not moved by the bounds of a probability.
pub proof fn lemma_inside(p: Double, n: int)
    requires
        is_inside(p, n),
        0 <= n <= 13,
    ensures
        Double::from_bits(stats::PROB_EPSILON).le(p),
        p.le(Double::from_bits(stats::PROB_CEILING)),
        Double::from_bits(ZERO).le(p),
        p.le(Double::from_bits(ONE)),
        stats::clamp_probability(p.clamp(Double::from_bits(ZERO), Double::from_bits(ONE))) == p,
        stats::clamp_probability(p) == p,
        is_inside(p, 13),
{
    lemma_below_one();
    lemma_exact_power(-13);
    lemma_exact_power(-n);
    law_powers_are_ordered(-13, -n);
    law_exact_orders(two_to(-13), two_to(-n));
    law_exact_orders(two_to(-13), p);
    law_exact_orders(p, Double::from_bits(BELOW_ONE));
}

/// Without shifts the midpoint is the weighed mean of the opinions, within 2^-30.
proof fn lemma_unshifted(
    c: &Arithmetic,
    weights: Double,
    sum: Double,
    spread: Double,
    config: AggregatorConfig,
)
    requires
        is_floating_point(c),
        c.has_log_odds(),
        is_inside(c.over(sum, weights), 11),
    ensures
        ({
            let zero = Double::from_bits(ZERO);
            let m = combined(c, weights, sum, spread, zero, zero, config).0;
            &&& m.is_finite()
            &&& gap(m.exact(), c.over(sum, weights).exact()) <= two_to(-30).exact()
        }),
{
    reveal(Arithmetic::has_log_odds);
    let zero = Double::from_bits(ZERO);
    let one = Double::from_bits(ONE);
    let base = c.over(sum, weights);
    lemma_inside(base, 11);
    law_powers_are_ordered(-14, -13);
    law_powers_are_ordered(-13, -11);
    assert(two_to(-14).le(base)) by {
        law_exact_orders(two_to(-14), two_to(-13));
        law_exact_orders(two_to(-14), base);
    }
    assert(base.le(Double::from_bits(crate::rounding::NEARLY_ONE)));
    let l = c.log_odds_of(base);
    let logit = c.plus(l, zero);
    let raw = c.probability_at(l);
    assert(raw.is_finite() && gap(raw.exact(), base.exact()) <= two_to(-30).exact());
    assert(!l.is_nan()) by {
        if l.is_nan() {
            assert(l.neg().is_nan());
            assert(c.exp(l.neg()).is_nan());
            assert(c.plus(one, c.exp(l.neg())).is_nan());
            assert(raw.is_nan());
        }
    }
    assert(c.exp(logit.neg()) == c.exp(l.neg())) by {
        if l.is_zero() {
            assert(logit.is_zero());
            assert(logit.neg().is_zero() && l.neg().is_zero());
        } else {
            assert(logit == l);
        }
    }
    assert(is_inside(raw, 13)) by {
        lemma_exact_power(-30);
        lemma_exact_power(-13);
        lemma_exact_power(-12);
        law_powers_are_ordered(-30, -13);
        law_exact_orders(two_to(-30), two_to(-13));
        assert(two_to(-11).exact() == 4 * two_to(-13).exact());
    }
    lemma_inside(raw, 13);
    assert(combined(c, weights, sum, spread, zero, zero, config).0 == raw);
}

proof fn lemma_picked(estimates: Seq<ProbabilityEstimate>, contract: Seq<char>)
    requires
        forall|i: int|
            0 <= i < estimates.len() ==> (#[trigger] estimates[i]).contract@ == contract
                && estimates[i].kind == EstimateKind::Absolute,
    ensures
        usable(estimates, contract) == estimates,
        of_kind(estimates, EstimateKind::Absolute) == estimates,
        of_kind(estimates, EstimateKind::LogOddsShift).len() == 0,
    decreases estimates.len(),
{
    reveal(Seq::filter);
    if estimates.len() > 0 {
        let rest = estimates.drop_last();
        assert forall|i: int| 0 <= i < rest.len() implies (#[trigger] rest[i]).contract@ == contract
            && rest[i].kind == EstimateKind::Absolute by {
            assert(rest[i] == estimates[i]);
        }
        lemma_picked(rest, contract);
        assert(estimates[estimates.len() - 1] == estimates.last());
        assert(rest.push(estimates.last()) =~= estimates);
    }
}

/// One opinion alone is the fair value, within 2^-29, whatever it weighs.
pub proof fn law_a_lone_opinion_is_the_fair_value(
    c: &Arithmetic,
    contract: CanonicalContractId,
    e: ProbabilityEstimate,
    config: AggregatorConfig,
    as_of: Timestamp,
)
    requires
        is_floating_point(c),
        c.is_accurate(),
        c.has_log_odds(),
        e.contract@ == contract@,
        e.kind == EstimateKind::Absolute,
        is_inside(e.probability, 10),
        two_to(-800).le(weight(c, e, as_of, config, seq![e])),
        weight(c, e, as_of, config, seq![e]).le(two_to(800)),
    ensures
        gap(
            fair_view(c, contract, seq![e], config, as_of).midpoint.exact(),
            e.probability.exact(),
        ) <= 2 * two_to(-30).exact(),
{
    let zero = Double::from_bits(ZERO);
    let one = Double::from_bits(ONE);
    let all = seq![e];
    lemma_picked(all, contract@);
    reveal_with_fuel(pool, 2);
    assert(all.drop_last().len() == 0);
    let w = weight(c, e, as_of, config, all);
    let p = e.probability;
    lemma_inside(p, 10);
    law_powers_are_ordered(-800, 800);
    law_powers_are_ordered(0, 2);
    lemma_weighed(c, w, p);
    let (weights, sum) = pool(c, all, as_of, config, all);
    assert(weights == w);
    let t = c.times(w, p);
    lemma_exact_power(-50);
    lemma_exact_power(-31);
    lemma_exact_power(-30);
    lemma_exact_power(-11);
    lemma_exact_power(0);
    law_powers_are_ordered(-50, -31);
    law_exact_orders(two_to(-50), two_to(-31));
    law_powers_are_ordered(-30, -11);
    law_exact_orders(two_to(-30), two_to(-11));
    let back = c.over(t, w);
    assert(!t.is_zero()) by {
        if t.is_zero() {
            assert(back.is_zero());
            law_exact_orders(back, back);
        }
    }
    assert(sum == t);
    assert(is_inside(back, 11));
    let spread = dispersion(c, all, back, as_of, config, all);
    lemma_unshifted(c, weights, sum, spread, config);
    assert(pool(c, of_kind(all, EstimateKind::LogOddsShift), as_of, config, all) == (zero, zero));
}

/// Two opinions are averaged by their weights, within 2^-29: the one that weighs more pulls the
/// fair value nearer to itself.
pub proof fn law_opinions_are_averaged_by_weight(
    c: &Arithmetic,
    contract: CanonicalContractId,
    a: ProbabilityEstimate,
    b: ProbabilityEstimate,
    config: AggregatorConfig,
    as_of: Timestamp,
)
    requires
        is_floating_point(c),
        c.is_accurate(),
        c.has_log_odds(),
        a.contract@ == contract@,
        b.contract@ == contract@,
        a.kind == EstimateKind::Absolute,
        b.kind == EstimateKind::Absolute,
        is_inside(a.probability, 10),
        is_inside(b.probability, 10),
        Double::from_bits(ONE).le(weight(c, a, as_of, config, seq![a, b])),
        Double::from_bits(ONE).le(weight(c, b, as_of, config, seq![a, b])),
        weight(c, a, as_of, config, seq![a, b]).le(two_to(20)),
        weight(c, b, as_of, config, seq![a, b]).le(two_to(20)),
    ensures
        ({
            let v = weight(c, a, as_of, config, seq![a, b]).exact();
            let w = weight(c, b, as_of, config, seq![a, b]).exact();
            let m = fair_view(c, contract, seq![a, b], config, as_of).midpoint.exact();
            gap(m * (v + w), a.probability.exact() * v + b.probability.exact() * w) <= 2 * two_to(
                -30,
            ).exact() * (v + w)
        }),
{
    let zero = Double::from_bits(ZERO);
    let one = Double::from_bits(ONE);
    let all = seq![a, b];
    lemma_picked(all, contract@);
    reveal_with_fuel(pool, 3);
    assert(all.drop_last() =~= seq![a]);
    assert(seq![a].drop_last() =~= Seq::<ProbabilityEstimate>::empty());
    let (v, w) = (weight(c, a, as_of, config, all), weight(c, b, as_of, config, all));
    let (p, q) = (a.probability, b.probability);
    lemma_inside(p, 10);
    lemma_inside(q, 10);
    law_powers_are_ordered(0, 20);
    assert(two_to(0) == one);
    let (weights, sum) = pool(c, all, as_of, config, all);
    lemma_two(c, v, w, p, q);
    let (s, t) = (c.times(v, p), c.times(w, q));
    assert(weights == c.plus(v, w));
    assert(sum == c.plus(s, t));
    let base = c.over(sum, weights);
    let spread = dispersion(c, all, base, as_of, config, all);
    lemma_unshifted(c, weights, sum, spread, config);
    assert(pool(c, of_kind(all, EstimateKind::LogOddsShift), as_of, config, all) == (zero, zero));
    let m = fair_view(c, contract, all, config, as_of).midpoint.exact();
    let (f, e) = (base.exact(), two_to(-30).exact());
    let total = v.exact() + w.exact();
    assert(gap(m * total, f * total) <= e * total) by (nonlinear_arith)
        requires
            gap(m, f) <= e,
            total >= 0,
    ;
    assert(2 * e * total == e * total + e * total) by (nonlinear_arith);
}

proof fn lemma_two(c: &Arithmetic, v: Double, w: Double, p: Double, q: Double)
    requires
        c.is_accurate(),
        Double::from_bits(ONE).le(v),
        Double::from_bits(ONE).le(w),
        v.le(two_to(20)),
        w.le(two_to(20)),
        is_inside(p, 10),
        is_inside(q, 10),
    ensures
        ({
            let (s, t) = (c.times(v, p), c.times(w, q));
            let base = c.over(c.plus(s, t), c.plus(v, w));
            let total = v.exact() + w.exact();
            &&& !s.is_zero()
            &&& !s.is_nan()
            &&& is_inside(base, 11)
            &&& gap(base.exact() * total, p.exact() * v.exact() + q.exact() * w.exact()) <= two_to(
                -30,
            ).exact() * total
            &&& total > 0
        }),
{
    let one = Double::from_bits(ONE);
    let zero = Double::from_bits(ZERO);
    let u = unit();
    lemma_exact_power(0);
    lemma_exact_power(20);
    lemma_exact_power(-34);
    lemma_exact_power(-33);
    lemma_exact_power(-32);
    lemma_exact_power(-31);
    lemma_exact_power(-30);
    lemma_exact_power(-52);
    lemma_exact_power(-11);
    lemma_exact_power(-10);
    law_powers_are_ordered(0, 20);
    law_powers_are_ordered(0, 21);
    law_powers_are_ordered(-30, -11);
    law_exact_orders(two_to(-30), two_to(-11));
    assert(two_to(0) == one);
    law_exact_orders(one, v);
    law_exact_orders(one, w);
    law_exact_orders(v, two_to(20));
    law_exact_orders(w, two_to(20));
    let (x, y, f, g) = (v.exact(), w.exact(), p.exact(), q.exact());
    let big = two_to(20).exact();
    let d = two_to(-33).exact();
    let h = two_to(-10).exact();
    assert(0 < x * f <= big * u && 0 < y * g <= big * u) by (nonlinear_arith)
        requires
            0 < x <= big,
            0 < y <= big,
            0 < f <= u,
            0 < g <= u,
    ;
    lemma_product_near(c, v, p, 20);
    lemma_product_near(c, w, q, 20);
    let (s, t) = (c.times(v, p), c.times(w, q));
    lemma_size(s, two_to(20));
    lemma_size(t, two_to(20));
    let (k, l) = (s.exact(), t.exact());
    // The products are well above zero.
    law_powers_are_ordered(-33, -10);
    law_exact_orders(two_to(-33), two_to(-10));
    law_powers_are_ordered(-11, -10);
    assert(x * f >= u * h && y * g >= u * h) by (nonlinear_arith)
        requires
            x >= u,
            y >= u,
            f >= h,
            g >= h,
            u > 0,
            h > 0,
    ;
    assert(d < h) by {
        law_powers_are_ordered(-33, -11);
        law_exact_orders(two_to(-33), two_to(-11));
    }
    assert(k > 0 && l > 0) by (nonlinear_arith)
        requires
            gap(k * u, x * f) <= d * u,
            gap(l * u, y * g) <= d * u,
            x * f >= u * h,
            y * g >= u * h,
            d < h,
            u > 0,
    ;
    law_exact_orders(s, zero);
    lemma_sum_near(c, s, t, 21);
    lemma_sum_near(c, v, w, 21);
    let (sum, weights) = (c.plus(s, t), c.plus(v, w));
    lemma_size(sum, two_to(21));
    lemma_size(weights, two_to(21));
    let (m, n) = (sum.exact(), weights.exact());
    // d2 = 2^-32 = 2 d.
    assert(n >= u && n > 0) by {
        law_powers_are_ordered(-32, 0);
        law_exact_orders(two_to(-32), two_to(0));
    }
    law_exact_orders(weights, zero);
    let total = x + y;
    lemma_mean(c, sum, weights, x, y, f, g, k, l, u, d, h);
}

proof fn lemma_mean(
    c: &Arithmetic,
    sum: Double,
    weights: Double,
    x: int,
    y: int,
    f: int,
    g: int,
    k: int,
    l: int,
    u: int,
    d: int,
    h: int,
)
    requires
        c.is_accurate(),
        sum.is_finite(),
        weights.is_finite(),
        !weights.is_zero(),
        u == unit(),
        d == two_to(-33).exact(),
        h == two_to(-10).exact(),
        u <= x <= two_to(20).exact(),
        u <= y <= two_to(20).exact(),
        h <= f <= u - h,
        h <= g <= u - h,
        gap(k * u, x * f) <= d * u,
        gap(l * u, y * g) <= d * u,
        gap(sum.exact(), k + l) <= two_to(-32).exact(),
        gap(weights.exact(), x + y) <= two_to(-32).exact(),
        weights.exact() >= u,
        k > 0,
        l > 0,
    ensures
        is_inside(c.over(sum, weights), 11),
        gap(c.over(sum, weights).exact() * (x + y), f * x + g * y) <= two_to(-30).exact() * (x + y),
{
    let (m, n) = (sum.exact(), weights.exact());
    let total = x + y;
    let e = two_to(-30).exact();
    lemma_exact_power(0);
    lemma_exact_power(1);
    lemma_exact_power(-52);
    lemma_exact_power(-34);
    lemma_exact_power(-33);
    lemma_exact_power(-32);
    lemma_exact_power(-31);
    lemma_exact_power(-30);
    lemma_exact_power(-11);
    lemma_exact_power(20);
    assert(two_to(-32).exact() == 2 * d && e == 8 * d);
    law_powers_are_ordered(-33, -11);
    law_exact_orders(two_to(-33), two_to(-11));
    law_powers_are_ordered(-30, -11);
    law_exact_orders(two_to(-30), two_to(-11));
    let wide = x * f + y * g;
    assert(f * x + g * y == wide) by (nonlinear_arith)
        requires
            wide == x * f + y * g,
    ;
    assert(h * total <= wide <= (u - h) * total) by (nonlinear_arith)
        requires
            wide == x * f + y * g,
            total == x + y,
            h <= f <= u - h,
            h <= g <= u - h,
            x >= 0,
            y >= 0,
    ;
    // sum * u is near what the exact weights make of the exact probabilities.
    assert(gap(m * u, wide) <= 4 * (d * u)) by {
        assert(gap(m * u, k * u + l * u) <= 2 * (d * u)) by (nonlinear_arith)
            requires
                gap(m, k + l) <= 2 * d,
                u > 0,
        ;
    }
    assert(0 < d * u && d * u + d * u <= d * total) by (nonlinear_arith)
        requires
            d > 0,
            u > 0,
            total >= 2 * u,
    ;
    assert(gap(m * u, 0) <= (2 * u) * gap(n, 0)) by {
        assert(wide <= u * total) by (nonlinear_arith)
            requires
                wide <= (u - h) * total,
                total > 0,
                h > 0,
        ;
        assert(n >= total - 2 * d);
        assert(m * u <= u * total + 4 * (d * u));
        assert(m * u >= 0) by (nonlinear_arith)
            requires
                u > 0,
                m >= k + l - 2 * d,
                gap(m * u, wide) <= 4 * (d * u),
                wide >= h * total,
                h > d,
                total >= 2 * u,
                d > 0,
                h >= 8 * d,
        ;
        assert(u * total + 4 * (d * u) <= 2 * u * n) by (nonlinear_arith)
            requires
                n >= total - 2 * d,
                total >= 2 * u,
                8 * d <= u,
                u > 0,
                d > 0,
        ;
    }
    lemma_quotient_near(c, sum, weights, 1);
    let base = c.over(sum, weights);
    lemma_size(base, two_to(1));
    let f2 = base.exact();
    let t = two_to(-52).exact();
    assert(t * n <= 5 * (d * u)) by {
        lemma_power_product(20, -52);
        lemma_power_product(0, -32);
        let big = two_to(20).exact();
        assert(n <= 2 * big + 2 * d);
        assert(t <= d) by {
            law_powers_are_ordered(-52, -33);
            law_exact_orders(two_to(-52), two_to(-33));
        }
        law_powers_are_ordered(-33, -1);
        law_exact_orders(two_to(-33), two_to(-1));
        lemma_exact_power(-1);
        assert(big * t == 2 * d * u);
        assert(t * n <= 2 * (big * t) + 2 * d * t) by (nonlinear_arith)
            requires
                n <= 2 * big + 2 * d,
                t >= 0,
        ;
        assert(2 * d * u == 2 * (d * u)) by (nonlinear_arith);
        assert(2 * d * t <= d * u) by (nonlinear_arith)
            requires
                2 * t <= u,
                d > 0,
        ;
    }
    assert(gap(f2 * n, f2 * total) <= 4 * (d * u)) by (nonlinear_arith)
        requires
            gap(n, total) <= 2 * d,
            -2 * u <= f2 <= 2 * u,
            u > 0,
            d > 0,
    ;
    assert(e * total == 8 * (d * total)) by (nonlinear_arith)
        requires
            e == 8 * d,
    ;
    assert(gap(f2 * total, wide) <= e * total);
    assert(h - e <= f2 <= u - h + e) by (nonlinear_arith)
        requires
            gap(f2 * total, wide) <= e * total,
            h * total <= wide <= (u - h) * total,
            total > 0,
    ;
}

/// The deviation of an estimate that has not aged: its own, or the floor where that is larger.
pub open spec fn floored_deviation(e: ProbabilityEstimate, config: AggregatorConfig) -> int {
    if e.std_dev.exact() < config.min_std_dev.exact() {
        config.min_std_dev.exact()
    } else {
        e.std_dev.exact()
    }
}

/// Whether the deviation of an estimate is an ordinary one.
pub open spec fn has_deviation(e: ProbabilityEstimate, config: AggregatorConfig) -> bool {
    &&& e.std_dev.is_finite()
    &&& config.min_std_dev.is_finite()
    &&& two_to(-10).exact() <= floored_deviation(e, config) <= unit()
}

proof fn lemma_floored(e: ProbabilityEstimate, config: AggregatorConfig)
    requires
        has_deviation(e, config),
    ensures
        ({
            let s = e.std_dev.larger(config.min_std_dev);
            &&& s.is_finite()
            &&& s.exact() == floored_deviation(e, config)
            &&& s.abs().le(Double::from_bits(ONE))
            &&& !s.is_zero()
            &&& Double::from_bits(ZERO).lt(s)
        }),
{
    let zero = Double::from_bits(ZERO);
    let one = Double::from_bits(ONE);
    let s = e.std_dev.larger(config.min_std_dev);
    law_exact_orders(config.min_std_dev, e.std_dev);
    law_exact_orders(e.std_dev, config.min_std_dev);
    lemma_exact_power(-10);
    lemma_exact_power(0);
    assert(two_to(0) == one);
    law_exact_orders(s, one);
    law_exact_orders(s, zero);
    law_exact_orders(zero, zero);
}

/// An opinion that stands alone and does not age weighs the inverse of its variance, up to a few
/// roundings: its weight times the square of its deviation is one.
pub proof fn law_weight_is_the_inverse_variance(
    c: &Arithmetic,
    e: ProbabilityEstimate,
    as_of: Timestamp,
    config: AggregatorConfig,
    all: Seq<ProbabilityEstimate>,
)
    requires
        c.is_accurate(),
        e.staleness == StalenessPolicy::Permanent,
        e.correlation_group is None,
        has_deviation(e, config),
    ensures
        ({
            let w = weight(c, e, as_of, config, all);
            let s = floored_deviation(e, config);
            &&& w.is_finite()
            &&& gap(w.exact() * s * s, unit() * unit() * unit()) <= 2 * two_to(-32).exact() * unit()
                * unit()
        }),
{
    let s = e.std_dev.larger(config.min_std_dev);
    lemma_floored(e, config);
    lemma_inverse_square(c, s);
}

proof fn lemma_inverse_square(c: &Arithmetic, s: Double)
    requires
        c.is_accurate(),
        s.is_finite(),
        two_to(-10).exact() <= s.exact() <= unit(),
    ensures
        ({
            let w = c.over(Double::from_bits(ONE), c.times(s, s));
            &&& w.is_finite()
            &&& gap(w.exact(), 0) <= two_to(21).exact()
            &&& gap(w.exact() * s.exact() * s.exact(), unit() * unit() * unit()) <= 2 * two_to(
                -32,
            ).exact() * unit() * unit()
        }),
{
    let zero = Double::from_bits(ZERO);
    let one = Double::from_bits(ONE);
    let u = unit();
    lemma_exact_power(0);
    lemma_exact_power(-10);
    lemma_exact_power(-20);
    lemma_exact_power(-21);
    lemma_exact_power(-32);
    lemma_exact_power(-53);
    lemma_exact_power(21);
    assert(two_to(0) == one);
    let (x, e) = (s.exact(), two_to(-53).exact());
    assert(gap(x * x, 0) <= u * u && x * x >= 0) by (nonlinear_arith)
        requires
            0 <= x <= u,
    ;
    lemma_product_near(c, s, s, 0);
    let square = c.times(s, s);
    lemma_size(square, one);
    let q = square.exact();
    let (h, g) = (two_to(-20).exact(), two_to(-21).exact());
    lemma_power_product(-10, -10);
    let below_10 = two_to(-10).exact();
    assert(x * x >= h * u) by (nonlinear_arith)
        requires
            x >= below_10,
            below_10 * below_10 == h * u,
            below_10 > 0,
    ;
    law_powers_are_ordered(-53, -21);
    law_exact_orders(two_to(-53), two_to(-21));
    assert(q >= g) by (nonlinear_arith)
        requires
            gap(q * u, x * x) <= e * u,
            x * x >= h * u,
            h == 2 * g,
            e <= g,
            u > 0,
    ;
    law_exact_orders(square, zero);
    let big = two_to(21).exact();
    lemma_power_product(21, -21);
    assert(gap(u * u, 0) <= big * gap(q, 0)) by (nonlinear_arith)
        requires
            q >= g,
            big * g == u * u,
            big > 0,
            u * u >= 0,
            g > 0,
    ;
    assert(u * u >= 0) by (nonlinear_arith);
    lemma_quotient_near(c, one, square, 21);
    let w = c.over(one, square);
    lemma_size(w, two_to(21));
    let v = w.exact();
    let d = two_to(-32).exact();
    lemma_power_product(21, -53);
    assert(gap(v * q * u, u * u * u) <= d * u * u) by (nonlinear_arith)
        requires
            gap(v * q, u * u) <= d * gap(q, 0),
            0 <= q <= u,
            u > 0,
            d >= 0,
    ;
    assert(gap(v * x * x, v * q * u) <= d * u * u) by (nonlinear_arith)
        requires
            gap(q * u, x * x) <= e * u,
            -big <= v <= big,
            big * e == d * u,
            u > 0,
            e >= 0,
    ;
    assert(2 * d * u * u == d * u * u + d * u * u) by (nonlinear_arith);
}

/// An estimate that does not age, or that is not old yet, has the deviation it came with or the
/// floor; one that is a half-life old has twice that.
pub proof fn law_a_half_life_doubles_the_deviation(
    c: &Arithmetic,
    e: ProbabilityEstimate,
    as_of: Timestamp,
    config: AggregatorConfig,
)
    requires
        is_floating_point(c),
        c.is_accurate(),
        c.has_log_odds(),
        has_deviation(e, config),
        config.staleness_half_life_ns > 0,
    ensures
        e.staleness == StalenessPolicy::Permanent || as_of.0 <= e.as_of.0 ==> aged_std(
            c,
            e,
            as_of,
            config,
        ).exact() == floored_deviation(e, config),
        e.staleness == StalenessPolicy::Decays && as_of.0 - e.as_of.0
            == config.staleness_half_life_ns ==> gap(
            aged_std(c, e, as_of, config).exact(),
            2 * floored_deviation(e, config),
        ) <= two_to(-52).exact(),
{
    let zero = Double::from_bits(ZERO);
    let one = Double::from_bits(ONE);
    let half = Double::from_bits(HALF);
    let s = e.std_dev.larger(config.min_std_dev);
    lemma_floored(e, config);
    reveal(Arithmetic::has_log_odds);
    reveal(Arithmetic::rounds_quotients);
    reveal(Arithmetic::rounds_counts);
    reveal(Arithmetic::is_accurate);
    let life = config.staleness_half_life_ns;
    let n = c.of_count(life as u64);
    assert(c.of_signed(life) == n);
    assert(one.le(n) && n.is_finite()) by {
        assert(c.of_count(1).le(n));
    }
    if e.staleness == StalenessPolicy::Decays && as_of.0 <= e.as_of.0 {
        assert(c.of_count(0).exact() == 0 * unit());
        let none = c.of_count(0);
        assert(0 * unit() == 0) by (nonlinear_arith);
        law_exact_orders(none, none);
        let ratio = c.over(none, n);
        assert(ratio.is_zero());
        assert(ratio == zero || ratio == zero.neg());
        assert(zero.le(none));
        reveal(Arithmetic::has_functions);
        assert(c.power(half, ratio).le(c.power(half, zero)));
        assert(c.power(half, zero).le(c.power(half, ratio)));
        let decay = c.power(half, ratio);
        assert(decay.same(one));
        assert(decay == one);
        assert(c.over(s, one) == s);
    }
    if e.staleness == StalenessPolicy::Decays && as_of.0 - e.as_of.0 == life {
        assert(as_of.age(e.as_of) == life);
        let ratio = c.over(n, n);
        reveal(Arithmetic::scales_by_powers);
        reveal(Arithmetic::rounds_products);
        assert(two_to(0) == one);
        assert(c.times(n, one) == n);
        assert(c.times(two_to(0), n) == n);
        assert(ratio == one);
        assert(c.power(half, one) == half);
        assert(half.larger(Double::from_bits(DECAY_FLOOR)) == half);
        lemma_exact_power(-1);
        lemma_exact_power(0);
        lemma_exact_power(-52);
        assert(two_to(-1) == half);
        assert(two_to(1) == two_to(1));
        let (x, u, g) = (s.exact(), unit(), half.exact());
        lemma_size(s, one);
        law_exact_orders(half, half);
        assert(gap(x * u, 0) <= (2 * u) * gap(g, 0)) by (nonlinear_arith)
            requires
                -u <= x <= u,
                2 * g == u,
                u > 0,
        ;
        lemma_quotient_near(c, s, half, 1);
        let (y, d) = (c.over(s, half).exact(), two_to(-52).exact());
        assert(gap(y, 2 * x) <= d) by (nonlinear_arith)
            requires
                gap(y * g, x * u) <= d * gap(g, 0),
                2 * g == u,
                u > 0,
        ;
    }
}

/// In a group of `k` an estimate's weight is cut by `1 + (k - 1) * correlation`, up to a few
/// roundings: by nothing where opinions of a group are independent, and to a `k`th where they are
/// one and the same.
pub proof fn law_a_group_shares_its_weight(
    c: &Arithmetic,
    e: ProbabilityEstimate,
    as_of: Timestamp,
    config: AggregatorConfig,
    all: Seq<ProbabilityEstimate>,
    group: String,
)
    requires
        c.keeps_order(),
        c.is_accurate(),
        e.correlation_group == Some(group),
        2 <= group_size(all, group@) <= 1000,
        config.assumed_correlation.is_finite(),
        0 <= config.assumed_correlation.exact() <= unit(),
        weight(c, ProbabilityEstimate { correlation_group: None, ..e }, as_of, config, all).abs().le(
            two_to(20),
        ),
    ensures
        ({
            let alone = weight(
                c,
                ProbabilityEstimate { correlation_group: None, ..e },
                as_of,
                config,
                all,
            ).exact();
            let w = weight(c, e, as_of, config, all).exact();
            let k = group_size(all, group@);
            let cut = unit() + (k - 1) * config.assumed_correlation.exact();
            gap(w * cut, alone * unit()) <= 4 * two_to(-20).exact() * unit()
        }),
{
    let zero = Double::from_bits(ZERO);
    let one = Double::from_bits(ONE);
    let n = group_size(all, group@);
    let k = c.of_count(n as u64);
    let r = config.assumed_correlation;
    let u = unit();
    lemma_exact_power(0);
    lemma_exact_power(1);
    assert(two_to(0) == one);
    lemma_tens();
    assert(k.exact() == n * u && k.is_finite()) by {
        reveal(Arithmetic::is_accurate);
    }
    assert(n * u > u && (n - 1) * u == n * u - u && n * u <= 1000 * u) by (nonlinear_arith)
        requires
            2 <= n <= 1000,
            u > 0,
    ;
    law_exact_orders(k, one);
    let alone = weight(c, ProbabilityEstimate { correlation_group: None, ..e }, as_of, config, all);
    lemma_size(alone, two_to(20));
    lemma_cut(c, n as int, config);
    let h = haircut(c, k, config);
    let g = two_to(-42).exact();
    let cut = u + (n - 1) * r.exact();
    law_exact_orders(h, zero);
    let (a, b) = (alone.exact(), h.exact());
    let most = two_to(20).exact();
    let above_21 = two_to(21).exact();
    assert(gap(a * u, 0) <= above_21 * gap(b, 0)) by (nonlinear_arith)
        requires
            -most <= a <= most,
            above_21 == 2 * most,
            2 * b >= u,
            u > 0,
            most > 0,
    ;
    lemma_quotient_near(c, alone, h, 21);
    let w = c.over(alone, h);
    lemma_size(w, two_to(21));
    assert(weight(c, e, as_of, config, all) == w);
    let v = w.exact();
    let f = two_to(-32).exact();
    lemma_power_product(21, -42);
    lemma_power_product(11, -32);
    let s = two_to(-20).exact();
    let above_21 = two_to(21).exact();
    assert(gap(v * cut, v * b) <= 4 * (above_21 * g)) by (nonlinear_arith)
        requires
            gap(b, cut) <= 4 * g,
            -above_21 <= v <= above_21,
            g >= 0,
    ;
    let above_11 = two_to(11).exact();
    assert(f * gap(b, 0) <= above_11 * f) by (nonlinear_arith)
        requires
            gap(b, 0) <= above_11,
            f >= 0,
    ;
    let z = two_to(-21).exact();
    assert(4 * s * u == 8 * (z * u) && z * u >= 0) by (nonlinear_arith)
        requires
            s == 2 * z,
            z > 0,
            u > 0,
    ;
}

proof fn lemma_tens()
    ensures
        two_to(10).exact() == 1024 * unit(),
        two_to(11).exact() == 2048 * unit(),
        two_to(21).exact() == 2 * two_to(20).exact(),
        two_to(20).exact() > 0,
        two_to(-42).exact() > 0,
        two_to(-41).exact() == 2 * two_to(-42).exact(),
        8 * two_to(-42).exact() <= unit(),
        two_to(-32).exact() > 0,
        two_to(-21).exact() > 0,
        two_to(-20).exact() == 2 * two_to(-21).exact(),
        unit() > 0,
{
    lemma_exact_power(0);
    lemma_exact_power(1);
    lemma_exact_power(2);
    lemma_exact_power(3);
    lemma_exact_power(4);
    lemma_exact_power(5);
    lemma_exact_power(6);
    lemma_exact_power(7);
    lemma_exact_power(8);
    lemma_exact_power(9);
    lemma_exact_power(10);
    lemma_exact_power(20);
    lemma_exact_power(-42);
    lemma_exact_power(-32);
    lemma_exact_power(-21);
    lemma_exact_power(-3);
    lemma_exact_power(-2);
    lemma_exact_power(-1);
    assert(two_to(0) == Double::from_bits(ONE));
    law_powers_are_ordered(-42, -3);
    law_exact_orders(two_to(-42), two_to(-3));
}

/// One more opinion of no group counts as one more.
pub proof fn law_an_independent_opinion_counts_one(
    c: &Arithmetic,
    contract: CanonicalContractId,
    base: Seq<ProbabilityEstimate>,
    e: ProbabilityEstimate,
    config: AggregatorConfig,
    as_of: Timestamp,
)
    requires
        c.is_accurate(),
        e.contract@ == contract@,
        e.kind == EstimateKind::Absolute,
        e.correlation_group is None,
        fair_view(c, contract, base, config, as_of).effective_sample_size.abs().le(two_to(10)),
    ensures
        gap(
            fair_view(c, contract, base.push(e), config, as_of).effective_sample_size.exact(),
            fair_view(c, contract, base, config, as_of).effective_sample_size.exact() + unit(),
        ) <= two_to(-42).exact(),
{
    reveal(Seq::filter);
    let all = usable(base, contract@);
    let absolutes = of_kind(all, EstimateKind::Absolute);
    assert(base.push(e).drop_last() =~= base);
    assert(usable(base.push(e), contract@) == all.push(e));
    assert(all.push(e).drop_last() =~= all);
    assert(of_kind(all.push(e), EstimateKind::Absolute) == absolutes.push(e));
    assert(absolutes.push(e).drop_last() =~= absolutes);
    lemma_sample_size_beside(c, absolutes, config, all, e);
    let before = sample_size(c, absolutes, config, all);
    let one = Double::from_bits(ONE);
    lemma_tens();
    assert(two_to(0) == one);
    lemma_size(before, two_to(10));
    law_powers_are_ordered(0, 10);
    lemma_sum_near(c, before, one, 11);
}

proof fn lemma_sample_size_beside(
    c: &Arithmetic,
    estimates: Seq<ProbabilityEstimate>,
    config: AggregatorConfig,
    all: Seq<ProbabilityEstimate>,
    other: ProbabilityEstimate,
)
    requires
        other.correlation_group is None,
    ensures
        sample_size(c, estimates, config, all.push(other)) == sample_size(
            c,
            estimates,
            config,
            all,
        ),
    decreases estimates.len(),
{
    if estimates.len() > 0 {
        lemma_sample_size_beside(c, estimates.drop_last(), config, all, other);
        assert(all.push(other).drop_last() =~= all);
    }
}

/// A group of `k` opinions counts as `k / (1 + (k - 1) * correlation)`, up to a few roundings: as
/// `k` where its opinions are independent, and as one where they are one and the same.
pub proof fn law_a_group_counts_as_its_share(
    c: &Arithmetic,
    contract: CanonicalContractId,
    estimates: Seq<ProbabilityEstimate>,
    group: Seq<char>,
    config: AggregatorConfig,
    as_of: Timestamp,
)
    requires
        c.is_ieee(),
        c.keeps_order(),
        c.is_accurate(),
        1 <= estimates.len() <= 1000,
        forall|i: int|
            0 <= i < estimates.len() ==> (#[trigger] estimates[i]).contract@ == contract@
                && estimates[i].kind == EstimateKind::Absolute && in_group(estimates[i], group),
        config.assumed_correlation.is_finite(),
        0 <= config.assumed_correlation.exact() <= unit(),
    ensures
        ({
            let n = fair_view(
                c,
                contract,
                estimates,
                config,
                as_of,
            ).effective_sample_size.exact();
            let k = estimates.len();
            let cut = unit() + (k - 1) * config.assumed_correlation.exact();
            gap(n * cut, k * unit() * unit()) <= 8 * two_to(-31).exact() * unit()
        }),
{
    let n = estimates.len();
    lemma_picked(estimates, contract@);
    lemma_one_group(c, estimates, group, config, estimates);
    lemma_whole_group(estimates, group);
    let zero = Double::from_bits(ZERO);
    let k = c.of_count(n as u64);
    let r = config.assumed_correlation;
    let u = unit();
    lemma_cut(c, n as int, config);
    let h = haircut(c, k, config);
    let cut = u + (n - 1) * r.exact();
    lemma_tens();
    lemma_exact_power(-42);
    lemma_exact_power(-31);
    law_exact_orders(h, zero);
    law_exact_orders(zero, zero);
    let (b, most) = (h.exact(), two_to(11).exact());
    assert(n * u <= 1000 * u && n * u > 0) by (nonlinear_arith)
        requires
            1 <= n <= 1000,
            u > 0,
    ;
    assert(gap(n * u * u, 0) <= most * gap(b, 0)) by (nonlinear_arith)
        requires
            0 <= n * u <= 1000 * u,
            most == 2048 * u,
            2 * b >= u,
            u > 0,
    ;
    lemma_quotient_near(c, k, h, 11);
    let share = c.over(k, h);
    lemma_size(share, two_to(11));
    let (v, g) = (share.exact(), two_to(-42).exact());
    lemma_power_product(11, -42);
    let z = two_to(-31).exact();
    assert(gap(v * cut, v * b) <= 4 * (z * u)) by (nonlinear_arith)
        requires
            gap(b, cut) <= 4 * g,
            -most <= v <= most,
            most * g == z * u,
            g >= 0,
    ;
    assert(g * gap(b, 0) <= z * u) by (nonlinear_arith)
        requires
            gap(b, 0) <= most,
            most * g == z * u,
            g >= 0,
    ;
    assert(8 * z * u == 8 * (z * u) && z * u >= 0) by (nonlinear_arith)
        requires
            z > 0,
            u > 0,
    ;
    let size = sample_size(c, estimates, config, estimates);
    assert(size.exact() == v) by {
        if share.is_zero() {
            assert(size.is_zero());
            law_exact_orders(share, share);
            law_exact_orders(size, size);
        } else {
            assert(size == share);
        }
    }
}

proof fn lemma_cut(c: &Arithmetic, n: int, config: AggregatorConfig)
    requires
        c.keeps_order(),
        c.is_accurate(),
        1 <= n <= 1000,
        config.assumed_correlation.is_finite(),
        0 <= config.assumed_correlation.exact() <= unit(),
    ensures
        ({
            let k = c.of_count(n as u64);
            let h = haircut(c, k, config);
            let cut = unit() + (n - 1) * config.assumed_correlation.exact();
            &&& k.is_finite()
            &&& k.exact() == n * unit()
            &&& h.is_finite()
            &&& gap(h.exact(), cut) <= 4 * two_to(-42).exact()
            &&& gap(h.exact(), 0) <= two_to(11).exact()
            &&& 2 * h.exact() >= unit()
            &&& unit() <= cut <= 1000 * unit()
        }),
{
    let one = Double::from_bits(ONE);
    let k = c.of_count(n as u64);
    let r = config.assumed_correlation;
    let u = unit();
    lemma_tens();
    assert(two_to(0) == one);
    assert(k.exact() == n * u && k.is_finite()) by {
        reveal(Arithmetic::is_accurate);
    }
    assert(n * u >= u && (n - 1) * u == n * u - u && n * u <= 1000 * u) by (nonlinear_arith)
        requires
            1 <= n <= 1000,
            u > 0,
    ;
    let d = c.minus(k, one);
    lemma_difference_near(c, k, one, 10);
    lemma_size(d, two_to(10));
    let (x, y, big) = (d.exact(), r.exact(), two_to(10).exact());
    assert(gap(x * y, 0) <= big * u) by (nonlinear_arith)
        requires
            -big <= x <= big,
            0 <= y <= u,
    ;
    lemma_product_near(c, d, r, 10);
    let t = c.times(d, r);
    lemma_size(t, two_to(10));
    lemma_sum_near(c, one, t, 11);
    let h = c.plus(one, t);
    let g = two_to(-42).exact();
    let near = two_to(-43).exact();
    lemma_exact_power(-43);
    let cut = u + (n - 1) * y;
    assert(gap(x * y, (n - 1) * u * y) <= g * u) by (nonlinear_arith)
        requires
            gap(x, (n - 1) * u) <= near,
            near <= g,
            0 <= y <= u,
            g >= 0,
    ;
    let x_t = t.exact();
    assert(gap(x_t, (n - 1) * y) <= 2 * g) by (nonlinear_arith)
        requires
            gap(x_t * u, x * y) <= near * u,
            near <= g,
            gap(x * y, (n - 1) * u * y) <= g * u,
            u > 0,
    ;
    assert(gap(h.exact(), cut) <= 4 * g);
    assert(u <= cut <= 1000 * u) by (nonlinear_arith)
        requires
            cut == u + (n - 1) * y,
            1 <= n <= 1000,
            0 <= y <= u,
    ;
    lemma_size(h, two_to(11));
}

proof fn lemma_whole_group(estimates: Seq<ProbabilityEstimate>, group: Seq<char>)
    requires
        forall|i: int| 0 <= i < estimates.len() ==> in_group(#[trigger] estimates[i], group),
    ensures
        group_size(estimates, group) == estimates.len(),
    decreases estimates.len(),
{
    if estimates.len() > 0 {
        let rest = estimates.drop_last();
        assert forall|i: int| 0 <= i < rest.len() implies in_group(#[trigger] rest[i], group) by {
            assert(rest[i] == estimates[i]);
        }
        lemma_whole_group(rest, group);
        assert(in_group(estimates[estimates.len() - 1], group));
    }
}

proof fn lemma_one_group(
    c: &Arithmetic,
    estimates: Seq<ProbabilityEstimate>,
    group: Seq<char>,
    config: AggregatorConfig,
    all: Seq<ProbabilityEstimate>,
)
    requires
        estimates.len() > 0,
        forall|i: int| 0 <= i < estimates.len() ==> in_group(#[trigger] estimates[i], group),
    ensures
        ({
            let k = c.of_count(group_size(all, group) as u64);
            sample_size(c, estimates, config, all) == c.plus(
                Double::from_bits(ZERO),
                c.over(k, haircut(c, k, config)),
            )
        }),
    decreases estimates.len(),
{
    let rest = estimates.drop_last();
    assert(in_group(estimates[estimates.len() - 1], group));
    if rest.len() > 0 {
        assert forall|i: int| 0 <= i < rest.len() implies in_group(#[trigger] rest[i], group) by {
            assert(rest[i] == estimates[i]);
        }
        lemma_one_group(c, rest, group, config, all);
        assert(in_group(rest[0], group));
        assert(has_group(rest, group));
    } else {
        assert(!has_group(rest, group));
        assert(sample_size(c, rest, config, all) == Double::from_bits(ZERO));
    }
}

/// The band of a lone opinion is as wide as twice its deviation times the score, up to roundings,
/// where that is above the floor and the band does not reach 0 or 1.
pub proof fn law_band_is_a_multiple_of_the_deviation(
    c: &Arithmetic,
    contract: CanonicalContractId,
    e: ProbabilityEstimate,
    config: AggregatorConfig,
    as_of: Timestamp,
)
    requires
        is_floating_point(c),
        c.is_accurate(),
        c.has_log_odds(),
        c.has_roots(),
        e.contract@ == contract@,
        e.kind == EstimateKind::Absolute,
        e.staleness == StalenessPolicy::Permanent,
        e.correlation_group is None,
        has_deviation(e, config),
        is_inside(e.probability, 10),
        config.band_z_score.is_finite(),
        0 <= config.band_z_score.exact() <= 4 * unit(),
        config.min_band_half_width.is_finite(),
        (config.min_band_half_width.exact() + 32 * two_to(-22).exact()) * unit()
            <= config.band_z_score.exact() * floored_deviation(e, config),
        Double::from_bits(ZERO).lt(fair_view(c, contract, seq![e], config, as_of).band_low),
        fair_view(c, contract, seq![e], config, as_of).band_high.lt(Double::from_bits(ONE)),
    ensures
        ({
            let view = fair_view(c, contract, seq![e], config, as_of);
            gap(
                (view.band_high.exact() - view.band_low.exact()) * unit(),
                2 * (config.band_z_score.exact() * floored_deviation(e, config)),
            ) <= 16 * two_to(-20).exact() * unit()
        }),
{
    let zero = Double::from_bits(ZERO);
    let one = Double::from_bits(ONE);
    let all = seq![e];
    lemma_picked(all, contract@);
    reveal_with_fuel(pool, 2);
    reveal_with_fuel(dispersion, 2);
    assert(all.drop_last().len() == 0);
    let s = e.std_dev.larger(config.min_std_dev);
    lemma_floored(e, config);
    lemma_inverse_square(c, s);
    let w = weight(c, e, as_of, config, all);
    assert(w == c.over(one, c.times(s, s)));
    let p = e.probability;
    lemma_inside(p, 10);
    lemma_ordinary(c, s, w);
    law_powers_are_ordered(-800, -1);
    law_powers_are_ordered(-1, 0);
    law_powers_are_ordered(21, 800);
    law_powers_are_ordered(0, 2);
    lemma_weighed(c, w, p);
    let t = c.times(w, p);
    let base = c.over(t, w);
    let (weights, sum) = pool(c, all, as_of, config, all);
    assert(weights == w);
    lemma_exact_power(-50);
    lemma_exact_power(-49);
    lemma_exact_power(-11);
    lemma_exact_power(0);
    law_powers_are_ordered(-49, -11);
    law_exact_orders(two_to(-49), two_to(-11));
    assert(!t.is_zero()) by {
        if t.is_zero() {
            assert(base.is_zero());
            law_exact_orders(base, base);
        }
    }
    assert(sum == t);
    assert(is_inside(base, 11));
    let spread = dispersion(c, all, base, as_of, config, all);
    lemma_unshifted(c, weights, sum, spread, config);
    lemma_no_spread(c, w, p, base);
    let v = c.over(one, w);
    assert(v.larger(c.over(spread, w)) == v) by {
        let x = c.minus(p, base);
        let y = c.times(w, c.integer_power(x, 2));
        assert(spread == c.plus(zero, y));
        assert(c.over(spread, w).le(v));
    }
    assert(pool(c, of_kind(all, EstimateKind::LogOddsShift), as_of, config, all) == (zero, zero));
    let (mid, half) = combined(c, weights, sum, spread, zero, zero, config);
    lemma_exact_power(-30);
    law_powers_are_ordered(-30, -11);
    law_exact_orders(two_to(-30), two_to(-11));
    law_exact_orders(zero, mid);
    law_exact_orders(mid, one);
    lemma_band(c, mid, s, w, config.band_z_score, config.min_band_half_width);
}

proof fn lemma_ordinary(c: &Arithmetic, s: Double, w: Double)
    requires
        c.is_accurate(),
        s.is_finite(),
        two_to(-10).exact() <= s.exact() <= unit(),
        w == c.over(Double::from_bits(ONE), c.times(s, s)),
    ensures
        w.is_finite(),
        two_to(-1).le(w),
        w.le(two_to(21)),
{
    lemma_inverse_square(c, s);
    lemma_exact_power(-10);
    lemma_exact_power(-32);
    lemma_exact_power(-3);
    lemma_exact_power(-2);
    lemma_exact_power(-1);
    lemma_exact_power(21);
    law_powers_are_ordered(-32, -3);
    law_exact_orders(two_to(-32), two_to(-3));
    law_powers_are_ordered(-1, 21);
    law_powers_are_ordered(21, 22);
    let (x, y, u, d) = (w.exact(), s.exact(), unit(), two_to(-32).exact());
    assert(two_to(0) == Double::from_bits(ONE));
    let yy = y * y;
    assert(0 < yy <= u * u) by (nonlinear_arith)
        requires
            yy == y * y,
            0 < y <= u,
    ;
    assert(x * y * y == x * yy) by (nonlinear_arith)
        requires
            yy == y * y,
    ;
    assert(2 * d * u * u <= u * u * u - 2 * d * u * u) by (nonlinear_arith)
        requires
            4 * d <= u,
            u > 0,
    ;
    assert(x * yy >= u * u * u - 2 * d * u * u);
    assert(2 * x >= u) by (nonlinear_arith)
        requires
            x * yy >= u * u * u - 2 * d * u * u,
            0 < yy <= u * u,
            4 * d <= u,
            u > 0,
    ;
    law_exact_orders(two_to(-1), w);
    law_exact_orders(w, two_to(21));
}

proof fn lemma_no_spread(c: &Arithmetic, w: Double, p: Double, base: Double)
    requires
        is_floating_point(c),
        c.is_accurate(),
        two_to(-1).le(w),
        w.le(two_to(21)),
        p.is_finite(),
        base.is_finite(),
        gap(base.exact(), p.exact()) <= 2 * two_to(-50).exact(),
    ensures
        ({
            let y = c.times(w, c.integer_power(c.minus(p, base), 2));
            let spread = c.plus(Double::from_bits(ZERO), y);
            &&& c.over(spread, w).le(c.over(Double::from_bits(ONE), w))
            &&& Double::from_bits(ZERO).le(c.over(Double::from_bits(ONE), w))
        }),
{
    reveal(Arithmetic::has_functions);
    reveal(Arithmetic::rounds_quotients);
    let zero = Double::from_bits(ZERO);
    let one = Double::from_bits(ONE);
    let u = unit();
    law_powers_are_ordered(-1, 21);
    law_powers_are_ordered(21, 22);
    lemma_exact_power(-50);
    lemma_exact_power(-49);
    lemma_exact_power(-96);
    lemma_exact_power(-75);
    lemma_exact_power(21);
    let x = c.minus(p, base);
    lemma_difference_near(c, p, base, -48);
    lemma_size(x, two_to(-48));
    lemma_power_product(-48, -48);
    let (a, g) = (x.exact(), two_to(-48).exact());
    let below_96 = two_to(-96).exact();
    assert(gap(a * a, 0) <= below_96 * u) by (nonlinear_arith)
        requires
            -g <= a <= g,
            g * g == below_96 * u,
    ;
    lemma_product_near(c, x, x, -96);
    let square = c.integer_power(x, 2);
    assert(square == c.times(x, x));
    assert(zero.le(square)) by {
        reveal(Arithmetic::rounds_products);
        assert(square.bits <= crate::double::INFINITY);
    }
    lemma_size(square, two_to(-96));
    law_exact_orders(zero, w);
    law_exact_orders(w, two_to(21));
    lemma_power_product(21, -96);
    let (b, big) = (square.exact(), two_to(21).exact());
    let below_96 = two_to(-96).exact();
    let below_75 = two_to(-75).exact();
    let x_w = w.exact();
    assert(gap(x_w * b, 0) <= below_75 * u) by (nonlinear_arith)
        requires
            0 <= x_w <= big,
            -below_96 <= b <= below_96,
            big * below_96 == below_75 * u,
    ;
    lemma_product_near(c, w, square, -75);
    let y = c.times(w, square);
    law_powers_are_ordered(-75, 0);
    assert(two_to(0) == one);
    assert(zero.le(y) && y.le(one));
    let spread = c.plus(zero, y);
    assert(zero.le(spread) && spread.le(one));
    assert(zero.le(c.over(spread, w)));
    assert(zero.le(c.over(one, w)));
}

proof fn lemma_band(c: &Arithmetic, mid: Double, s: Double, w: Double, z: Double, floor: Double)
    requires
        is_floating_point(c),
        c.is_accurate(),
        c.has_roots(),
        Double::from_bits(ZERO).le(mid),
        mid.le(Double::from_bits(ONE)),
        s.is_finite(),
        two_to(-10).exact() <= s.exact() <= unit(),
        w == c.over(Double::from_bits(ONE), c.times(s, s)),
        z.is_finite(),
        0 <= z.exact() <= 4 * unit(),
        floor.is_finite(),
        (floor.exact() + 32 * two_to(-22).exact()) * unit() <= z.exact() * s.exact(),
    ensures
        ({
            let (zero, one) = (Double::from_bits(ZERO), Double::from_bits(ONE));
            let swing = c.integer_power(c.times(mid, c.minus(one, mid)), 2);
            let total = c.plus(c.over(one, w), c.times(swing, zero));
            let half = c.times(z, c.sqrt(total)).larger(floor);
            let low = c.minus(mid, half).clamp(zero, one);
            let high = c.plus(mid, half).clamp(zero, one);
            zero.lt(low) && high.lt(one) ==> gap(
                (high.exact() - low.exact()) * unit(),
                2 * (z.exact() * s.exact()),
            ) <= 16 * two_to(-20).exact() * unit()
        }),
{
    let zero = Double::from_bits(ZERO);
    let one = Double::from_bits(ONE);
    let u = unit();
    lemma_ordinary(c, s, w);
    law_powers_are_ordered(-1, 21);
    law_powers_are_ordered(21, 22);
    let inner = c.times(mid, c.minus(one, mid));
    assert(zero.le(inner) && inner.le(one)) by {
        let rest = c.minus(one, mid);
        assert(rest.le(one));
        assert(c.minus(mid, mid).is_zero());
        assert(c.minus(mid, mid).le(rest));
        assert(c.times(mid, one) == mid);
    }
    let swing = c.integer_power(inner, 2);
    assert(swing.is_finite());
    let v = c.over(one, w);
    assert(c.times(swing, zero).is_zero());
    lemma_variance(c, s, w);
    let total = c.plus(v, c.times(swing, zero));
    assert(total == v);
    let root = c.sqrt(v);
    lemma_root(c, s, v);
    let (r, f, g, h) = (root.exact(), z.exact(), s.exact(), two_to(-22).exact());
    lemma_exact_power(0);
    lemma_exact_power(1);
    lemma_exact_power(2);
    lemma_exact_power(3);
    lemma_exact_power(4);
    lemma_exact_power(-22);
    lemma_exact_power(-21);
    lemma_exact_power(-50);
    lemma_exact_power(-49);
    law_powers_are_ordered(-50, -22);
    law_exact_orders(two_to(-50), two_to(-22));
    law_powers_are_ordered(-49, -22);
    law_exact_orders(two_to(-49), two_to(-22));
    law_powers_are_ordered(1, 3);
    law_powers_are_ordered(3, 4);
    assert(two_to(0) == one);
    law_exact_orders(zero, root);
    law_exact_orders(root, two_to(1));
    assert(gap(f * r, 0) <= (8 * u) * u) by (nonlinear_arith)
        requires
            0 <= f <= 4 * u,
            0 <= r <= 2 * u,
    ;
    lemma_product_near(c, z, root, 3);
    let half = c.times(z, root);
    lemma_size(half, two_to(3));
    let k = half.exact();
    assert(gap(f * r, f * g) <= 28 * (h * u)) by (nonlinear_arith)
        requires
            gap(r, g) <= 7 * h,
            0 <= f <= 4 * u,
            u > 0,
            h > 0,
    ;
    let below_50 = two_to(-50).exact();
    assert(below_50 * u <= h * u) by (nonlinear_arith)
        requires
            below_50 <= h,
            u > 0,
    ;
    assert(gap(k * u, f * g) <= 29 * (h * u));
    let x_floor = floor.exact();
    assert(k > x_floor) by (nonlinear_arith)
        requires
            gap(k * u, f * g) <= 29 * (h * u),
            (x_floor + 32 * h) * u <= f * g,
            h > 0,
            u > 0,
    ;
    law_exact_orders(half, floor);
    law_exact_orders(floor, half);
    assert(half.larger(floor) == half);
    lemma_size(mid, one);
    lemma_difference_near(c, mid, half, 4);
    lemma_sum_near(c, mid, half, 4);
    let (low, high) = (c.minus(mid, half), c.plus(mid, half));
    if zero.lt(low.clamp(zero, one)) && high.clamp(zero, one).lt(one) {
        law_exact_orders(zero, low);
        law_exact_orders(low, one);
        law_exact_orders(zero, high);
        law_exact_orders(zero, z);
        assert(zero.le(half));
        assert(low.le(mid));
        assert(mid.le(high));
        assert(low.clamp(zero, one) == low);
        assert(high.clamp(zero, one) == high);
        let (a, b, e) = (low.exact(), high.exact(), two_to(-49).exact());
        assert(gap(b - a, 2 * k) <= 2 * h);
        assert(gap((b - a) * u, 2 * (k * u)) <= 2 * (h * u)) by (nonlinear_arith)
            requires
                gap(b - a, 2 * k) <= 2 * h,
                u > 0,
        ;
        let q = two_to(-20).exact();
        assert(16 * q * u == 64 * (h * u) && h * u >= 0) by (nonlinear_arith)
            requires
                q == 4 * h,
                h > 0,
                u > 0,
        ;
    }
}

proof fn lemma_variance(c: &Arithmetic, s: Double, w: Double)
    requires
        c.is_accurate(),
        s.is_finite(),
        two_to(-10).exact() <= s.exact() <= unit(),
        w == c.over(Double::from_bits(ONE), c.times(s, s)),
        w.is_finite(),
        two_to(-1).le(w),
        w.le(two_to(21)),
    ensures
        ({
            let v = c.over(Double::from_bits(ONE), w);
            &&& v.is_finite()
            &&& Double::from_bits(ZERO).lt(v)
            &&& v.le(two_to(2))
            &&& gap(v.exact() * unit(), s.exact() * s.exact()) <= 6 * (two_to(-32).exact()
                * unit())
        }),
{
    let zero = Double::from_bits(ZERO);
    let one = Double::from_bits(ONE);
    let u = unit();
    lemma_inverse_square(c, s);
    lemma_exact_power(0);
    lemma_exact_power(1);
    lemma_exact_power(2);
    lemma_exact_power(-1);
    lemma_exact_power(-10);
    lemma_exact_power(-32);
    lemma_exact_power(-52);
    law_powers_are_ordered(-52, -32);
    law_exact_orders(two_to(-52), two_to(-32));
    law_powers_are_ordered(-32, -1);
    law_exact_orders(two_to(-32), two_to(-1));
    law_powers_are_ordered(-1, 21);
    law_powers_are_ordered(21, 22);
    law_powers_are_ordered(1, 2);
    assert(two_to(0) == one);
    law_exact_orders(two_to(-1), w);
    law_exact_orders(zero, w);
    law_exact_orders(w, zero);
    let (x, y) = (w.exact(), s.exact());
    assert(gap(u * u, 0) <= (2 * u) * gap(x, 0)) by (nonlinear_arith)
        requires
            2 * x >= u,
            u > 0,
    ;
    lemma_quotient_near(c, one, w, 1);
    let v = c.over(one, w);
    lemma_size(v, two_to(1));
    let (a, d, t) = (v.exact(), two_to(-32).exact(), two_to(-52).exact());
    let yy = y * y;
    let n = x * yy;
    assert(x * y * y == n) by (nonlinear_arith)
        requires
            yy == y * y,
            n == x * yy,
    ;
    assert(yy > 0) by (nonlinear_arith)
        requires
            yy == y * y,
            y > 0,
    ;
    assert(2 * d * u * u == 2 * (d * (u * u)) && u * u * u == u * (u * u)) by (nonlinear_arith);
    let uu = u * u;
    assert(gap(n, u * uu) <= 2 * (d * uu));
    assert(gap(a * n, uu * yy) <= t * n) by (nonlinear_arith)
        requires
            gap(a * x, uu) <= t * gap(x, 0),
            n == x * yy,
            yy > 0,
            x > 0,
    ;
    assert(gap(a * n, a * (u * uu)) <= 4 * (d * u * uu)) by (nonlinear_arith)
        requires
            gap(n, u * uu) <= 2 * (d * uu),
            -2 * u <= a <= 2 * u,
            u > 0,
            d > 0,
            uu == u * u,
    ;
    assert(t * n <= 2 * (d * u * uu)) by (nonlinear_arith)
        requires
            gap(n, u * uu) <= 2 * (d * uu),
            0 < t <= d,
            2 * d <= u,
            uu == u * u,
            u > 0,
    ;
    assert(gap(a * u, yy) <= 6 * (d * u)) by (nonlinear_arith)
        requires
            gap(a * n, uu * yy) <= t * n,
            gap(a * n, a * (u * uu)) <= 4 * (d * u * uu),
            t * n <= 2 * (d * u * uu),
            uu == u * u,
            u > 0,
    ;
    let h = two_to(-10).exact();
    lemma_power_product(-10, -10);
    lemma_exact_power(-20);
    lemma_exact_power(-30);
    lemma_exact_power(-31);
    law_powers_are_ordered(-29, -20);
    law_exact_orders(two_to(-29), two_to(-20));
    let below_20 = two_to(-20).exact();
    assert(yy >= below_20 * u) by (nonlinear_arith)
        requires
            y >= h,
            h > 0,
            yy == y * y,
            h * h == below_20 * u,
    ;
    assert(two_to(-29).exact() == 8 * d);
    let below_20 = two_to(-20).exact();
    assert(a > 0) by (nonlinear_arith)
        requires
            gap(a * u, yy) <= 6 * (d * u),
            yy >= below_20 * u,
            8 * d <= below_20,
            d > 0,
            u > 0,
    ;
    law_exact_orders(v, zero);
}

proof fn lemma_root(c: &Arithmetic, s: Double, v: Double)
    requires
        c.has_roots(),
        s.is_finite(),
        two_to(-10).exact() <= s.exact() <= unit(),
        Double::from_bits(ZERO).lt(v),
        v.le(two_to(2)),
        gap(v.exact() * unit(), s.exact() * s.exact()) <= 6 * (two_to(-32).exact() * unit()),
    ensures
        c.sqrt(v).is_finite(),
        Double::from_bits(ZERO).le(c.sqrt(v)),
        c.sqrt(v).le(two_to(1)),
        gap(c.sqrt(v).exact(), s.exact()) <= 7 * two_to(-22).exact(),
{
    reveal(Arithmetic::has_roots);
    let zero = Double::from_bits(ZERO);
    let root = c.sqrt(v);
    law_powers_are_ordered(1, 2);
    law_exact_orders(zero, root);
    law_exact_orders(zero, zero);
    lemma_exact_power(-10);
    lemma_exact_power(-22);
    lemma_exact_power(-32);
    lemma_exact_power(-50);
    law_powers_are_ordered(-50, -32);
    law_exact_orders(two_to(-50), two_to(-32));
    lemma_power_product(-10, -22);
    let (r, y, u, d) = (root.exact(), s.exact(), unit(), two_to(-32).exact());
    let (h, g) = (two_to(-10).exact(), two_to(-22).exact());
    let below_50 = two_to(-50).exact();
    assert(below_50 * u <= d * u) by (nonlinear_arith)
        requires
            below_50 <= d,
            u > 0,
    ;
    assert(gap(r * r, y * y) <= 7 * (h * g));
    assert(gap(r, y) <= 7 * g) by (nonlinear_arith)
        requires
            gap(r * r, y * y) <= 7 * (h * g),
            r >= 0,
            y >= h,
            h > 0,
            g > 0,
    ;
}

} // verus!
