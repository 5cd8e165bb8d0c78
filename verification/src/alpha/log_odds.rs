//! What shifts and opinions do to a fair value: a shift moves its log-odds by its own size, either
//! way, and opinions pull it towards themselves by their weight.
use vstd::prelude::*;
use crate::alpha::aggregator::{
    combined, dispersion, fair_view, group_size, of_kind, pool, usable, weight, AggregatorConfig,
};
use crate::alpha::confidence::is_floating_point;
use crate::alpha::stats;
use crate::double::{Arithmetic, Double, ONE, ZERO};
use crate::rounding::{
    gap, law_exact_orders, law_powers_are_ordered, lemma_difference_near, lemma_exact_power,
    lemma_nearly_one, lemma_product_near, lemma_quotient_near, lemma_size, lemma_sum_near, two_to,
    unit, ELEVEN, EXPONENT, NEARLY_ONE,
};
use crate::types::alpha::{EstimateKind, ProbabilityEstimate};
use crate::types::contract::CanonicalContractId;
use crate::types::time::Timestamp;
use vstd::arithmetic::power2::lemma_pow2_adds;

verus! {

/// Powers of two multiply by adding their exponents.
pub proof fn lemma_power_product(a: int, b: int)
    requires
        -1022 <= a <= 1023,
        -1022 <= b <= 1023,
        -1022 <= a + b <= 1023,
    ensures
        two_to(a).exact() * two_to(b).exact() == two_to(a + b).exact() * unit(),
{
    lemma_exact_power(a);
    lemma_exact_power(b);
    lemma_exact_power(a + b);
    lemma_pow2_adds((a + 1074) as nat, (b + 1074) as nat);
    lemma_pow2_adds((a + b + 1074) as nat, 1074);
    assert((a + 1074) as nat + (b + 1074) as nat == (a + b + 1074) as nat + 1074);
}

/// Every number between 2^-800 and 2^800 lies between two neighbouring powers of two.
proof fn lemma_binade(w: Double) -> (j: int)
    requires
        two_to(-800).le(w),
        w.le(two_to(800)),
    ensures
        -800 <= j <= 800,
        two_to(j).le(w),
        w.le(two_to(j + 1)),
{
    law_powers_are_ordered(-800, 800);
    let step = EXPONENT as int;
    let e = w.bits as int / step;
    assert(e * step <= w.bits < (e + 1) * step) by (nonlinear_arith)
        requires
            step > 0,
            e == w.bits as int / step,
    ;
    assert(two_to(-800).bits == 223 * step);
    assert(two_to(800).bits == 1823 * step);
    assert(223 <= e <= 1823) by (nonlinear_arith)
        requires
            step > 0,
            223 * step <= w.bits <= 1823 * step,
            e * step <= w.bits < (e + 1) * step,
    ;
    let j = e - 1023;
    law_powers_are_ordered(j, j + 1);
    assert(two_to(j).bits == e * step) by {
        assert(0 < e * step <= 2046 * step) by (nonlinear_arith)
            requires
                1 <= e <= 2046,
                step > 0,
        ;
    }
    assert(two_to(j + 1).bits == (e + 1) * step) by {
        assert(0 < (e + 1) * step <= 2046 * step) by (nonlinear_arith)
            requires
                1 <= e + 1 <= 2046,
                step > 0,
        ;
    }
    j
}

/// A number that is weighed and divided by its weight again comes back.
pub proof fn lemma_weighed(c: &Arithmetic, w: Double, p: Double)
    requires
        c.is_accurate(),
        two_to(-800).le(w),
        w.le(two_to(800)),
        p.abs().le(two_to(2)),
    ensures
        c.times(w, p).is_finite(),
        c.over(c.times(w, p), w).is_finite(),
        gap(c.over(c.times(w, p), w).exact(), p.exact()) <= 2 * two_to(-50).exact(),
{
    let zero = Double::from_bits(ZERO);
    let j = lemma_binade(w);
    let u = unit();
    let (big_w, big_p) = (w.exact(), p.exact());
    let low = two_to(j).exact();
    lemma_small_powers();
    law_powers_are_ordered(-800, 800);
    law_powers_are_ordered(2, 3);
    lemma_exact_power(j);
    lemma_exact_power(j + 1);
    lemma_exact_power(j + 2);
    lemma_exact_power(-50);
    law_powers_are_ordered(j, j + 1);
    law_exact_orders(two_to(j), w);
    law_exact_orders(w, two_to(j + 1));
    law_exact_orders(zero, w);
    assert(low <= big_w <= 2 * low);
    assert(two_to(j + 3).exact() == 8 * low);
    lemma_size(p, two_to(2));
    let t = c.times(w, p);
    assert(gap(big_w * big_p, 0) <= 8 * low * u) by (nonlinear_arith)
        requires
            0 < low <= big_w <= 2 * low,
            -4 * u <= big_p <= 4 * u,
            u > 0,
    ;
    lemma_product_near(c, w, p, j + 3);
    let e1 = two_to(j - 50).exact();
    lemma_size(t, two_to(j + 3));
    let e2 = two_to(-50).exact();
    let x_t = t.exact();
    assert(gap(x_t * u, 0) <= 8 * u * big_w) by (nonlinear_arith)
        requires
            -8 * low <= x_t <= 8 * low,
            0 < low <= big_w,
            u > 0,
    ;
    assert(!w.is_zero());
    lemma_quotient_near(c, t, w, 3);
    let mean = c.over(t, w);
    lemma_power_product(j, -50);
    lemma_comes_back(mean.exact(), t.exact(), big_w, big_p, low, u, e1, e2);
}

proof fn lemma_small_powers()
    ensures
        two_to(1).exact() == 2 * unit(),
        two_to(2).exact() == 4 * unit(),
        two_to(3).exact() == 8 * unit(),
        two_to(4).exact() == 16 * unit(),
        two_to(0) == Double::from_bits(ONE),
        unit() > 0,
{
    lemma_exact_power(0);
    lemma_exact_power(1);
    lemma_exact_power(2);
    lemma_exact_power(3);
    law_powers_are_ordered(0, 0);
}

proof fn lemma_comes_back(
    mean: int,
    t: int,
    w: int,
    p: int,
    low: int,
    u: int,
    e1: int,
    e2: int,
)
    requires
        0 < low <= w,
        e2 > 0,
        e1 * u == low * e2,
        gap(t * u, w * p) <= e1 * u,
        gap(mean * w, t * u) <= e2 * w,
    ensures
        gap(mean, p) <= 2 * e2,
{
    assert(low * e2 <= w * e2) by (nonlinear_arith)
        requires
            low <= w,
            e2 > 0,
    ;
    assert(gap(mean * w, w * p) <= 2 * (e2 * w)) by {
        assert(e2 * w == w * e2) by (nonlinear_arith);
    }
    assert((mean - p) * w == mean * w - w * p) by (nonlinear_arith);
    assert(mean - p <= 2 * e2) by (nonlinear_arith)
        requires
            w > 0,
            (mean - p) * w <= 2 * (e2 * w),
    ;
    assert(p - mean <= 2 * e2) by (nonlinear_arith)
        requires
            w > 0,
            (mean - p) * w >= -(2 * (e2 * w)),
    ;
}

/// The log-odds that an opinion is held at are of an ordinary size.
proof fn lemma_held(c: &Arithmetic, held: Double)
    requires
        is_floating_point(c),
        c.is_accurate(),
        c.has_log_odds(),
        Double::from_bits(stats::PROB_EPSILON).le(held),
        held.le(Double::from_bits(stats::PROB_CEILING)),
    ensures
        c.log_odds_of(held).abs().le(Double::from_bits(ELEVEN)),
        two_to(-14).le(held),
        held.le(Double::from_bits(NEARLY_ONE)),
{
    reveal(Arithmetic::has_log_odds);
    reveal(Arithmetic::rounds_quotients);
    reveal(Arithmetic::multiplies_powers);
    let zero = Double::from_bits(ZERO);
    let one = Double::from_bits(ONE);
    law_powers_are_ordered(-15, -14);
    law_powers_are_ordered(-14, 0);
    law_powers_are_ordered(0, 15);
    lemma_exact_power(-15);
    lemma_exact_power(-14);
    lemma_exact_power(-53);
    lemma_exact_power(0);
    lemma_nearly_one();
    assert(two_to(-14).le(held));
    assert(held.le(Double::from_bits(NEARLY_ONE)));
    law_exact_orders(held, Double::from_bits(NEARLY_ONE));
    law_exact_orders(zero, held);
    let rest = c.minus(one, held);
    assert(two_to(0) == one);
    lemma_difference_near(c, one, held, 0);
    assert(gap(rest.exact(), one.exact() - held.exact()) <= two_to(-53).exact());
    law_powers_are_ordered(-53, -15);
    law_exact_orders(two_to(-53), two_to(-15));
    law_exact_orders(two_to(-15), rest);
    assert(two_to(-15).le(rest));
    assert(rest.le(one));
    let odds = c.over(held, rest);
    assert(zero.le(odds));
    // From below: held over one. From above: one over 2^-15.
    assert(c.over(held, one) == held);
    assert(c.over(held, one).le(odds));
    assert(c.over(two_to(0), two_to(-15)) == two_to(15));
    assert(zero.le(c.over(held, two_to(-15))));
    assert(odds.le(c.over(held, two_to(-15))));
    assert(c.over(held, two_to(-15)).le(c.over(one, two_to(-15))));
}

/// The raw midpoint is the probability whose log-odds are the opinion's and the shift's together.
proof fn lemma_midpoint(
    c: &Arithmetic,
    weights: Double,
    sum: Double,
    spread: Double,
    shift_weights: Double,
    shift_sum: Double,
    config: AggregatorConfig,
)
    requires
        is_floating_point(c),
        c.is_accurate(),
        c.has_log_odds(),
        !c.over(sum, weights).is_nan(),
        ({
            let shift = if shift_weights.gt(Double::from_bits(ZERO)) {
                c.over(shift_sum, shift_weights)
            } else {
                Double::from_bits(ZERO)
            };
            shift.is_finite() && gap(shift.exact(), 0) <= 4 * unit() + two_to(-30).exact()
        }),
        ({
            let m = combined(c, weights, sum, spread, shift_weights, shift_sum, config).0;
            Double::from_bits(stats::PROB_EPSILON).lt(m) && m.lt(
                Double::from_bits(stats::PROB_CEILING),
            )
        }),
    ensures
        ({
            let m = combined(c, weights, sum, spread, shift_weights, shift_sum, config).0;
            let held = stats::clamp_probability(
                c.over(sum, weights).clamp(Double::from_bits(ZERO), Double::from_bits(ONE)),
            );
            let shift = if shift_weights.gt(Double::from_bits(ZERO)) {
                c.over(shift_sum, shift_weights)
            } else {
                Double::from_bits(ZERO)
            };
            &&& c.log_odds_of(m).is_finite()
            &&& gap(c.log_odds_of(m).exact(), c.log_odds_of(held).exact() + shift.exact())
                <= two_to(-20).exact() + two_to(-49).exact()
            &&& c.log_odds_of(held).is_finite()
        }),
{
    reveal(Arithmetic::has_log_odds);
    let zero = Double::from_bits(ZERO);
    let one = Double::from_bits(ONE);
    let held = stats::clamp_probability(c.over(sum, weights).clamp(zero, one));
    let shift = if shift_weights.gt(zero) {
        c.over(shift_sum, shift_weights)
    } else {
        zero
    };
    lemma_held(c, held);
    let l = c.log_odds_of(held);
    let u = unit();
    lemma_exact_power(0);
    lemma_exact_power(1);
    lemma_exact_power(2);
    lemma_exact_power(3);
    lemma_exact_power(-30);
    law_powers_are_ordered(-30, 0);
    law_exact_orders(two_to(-30), two_to(0));
    law_powers_are_ordered(4, 5);
    lemma_nearly_one();
    assert(two_to(4).exact() == 16 * u);
    assert(l.is_finite());
    assert(-11 * u <= l.exact() <= 11 * u) by {
        law_exact_orders(l.abs(), Double::from_bits(ELEVEN));
        law_exact_orders(zero, l.abs());
        assert(l.exact() == l.abs().exact() || l.exact() == -l.abs().exact());
    }
    let x = c.plus(l, shift);
    lemma_sum_near(c, l, shift, 4);
    assert(x.abs().le(two_to(4)));
    assert(gap(x.exact(), l.exact() + shift.exact()) <= two_to(-49).exact());
    let raw = c.probability_at(x);
    let m = combined(c, weights, sum, spread, shift_weights, shift_sum, config).0;
    assert(m == stats::clamp_probability(raw));
    assert(m == raw);
    let back = c.log_odds_of(c.probability_at(x));
    assert(gap(back.exact(), x.exact()) <= two_to(-20).exact());
}

proof fn lemma_one_shift(
    base: Seq<ProbabilityEstimate>,
    contract: Seq<char>,
    shift: ProbabilityEstimate,
)
    requires
        shift.contract@ == contract,
        shift.kind == EstimateKind::LogOddsShift,
    ensures
        ({
            let all = usable(base, contract);
            let more = usable(base.push(shift), contract);
            &&& more == all.push(shift)
            &&& of_kind(more, EstimateKind::Absolute) == of_kind(all, EstimateKind::Absolute)
            &&& of_kind(more, EstimateKind::LogOddsShift) == of_kind(
                all,
                EstimateKind::LogOddsShift,
            ).push(shift)
        }),
{
    reveal(Seq::filter);
    let all = usable(base, contract);
    assert(base.push(shift).drop_last() =~= base);
    assert(usable(base.push(shift), contract) == all.push(shift));
    assert(all.push(shift).drop_last() =~= all);
}

proof fn lemma_group_size_beside(
    all: Seq<ProbabilityEstimate>,
    e: ProbabilityEstimate,
    group: Seq<char>,
)
    requires
        e.correlation_group is None,
    ensures
        group_size(all.push(e), group) == group_size(all, group),
{
    assert(all.push(e).drop_last() =~= all);
}

proof fn lemma_pool_beside(
    c: &Arithmetic,
    estimates: Seq<ProbabilityEstimate>,
    mid: Double,
    as_of: Timestamp,
    config: AggregatorConfig,
    all: Seq<ProbabilityEstimate>,
    other: ProbabilityEstimate,
)
    requires
        other.correlation_group is None,
    ensures
        pool(c, estimates, as_of, config, all.push(other)) == pool(
            c,
            estimates,
            as_of,
            config,
            all,
        ),
        dispersion(c, estimates, mid, as_of, config, all.push(other)) == dispersion(
            c,
            estimates,
            mid,
            as_of,
            config,
            all,
        ),
    decreases estimates.len(),
{
    if estimates.len() > 0 {
        lemma_pool_beside(c, estimates.drop_last(), mid, as_of, config, all, other);
        if let Some(g) = estimates.last().correlation_group {
            lemma_group_size_beside(all, other, g@);
        }
    }
}

/// A shift moves the log-odds of the fair value by its own size, up or down: what they are with it
/// less what they are without it is the shift, within 2^-18. So bad news lowers a fair value, good
/// news raises it, and a shift and its opposite move it equally far. The shift is no more than 4
/// either way and weighs between 2^-800 and 2^800, and neither fair value is held at its bound.
pub proof fn law_shift_moves_the_log_odds(
    c: &Arithmetic,
    contract: CanonicalContractId,
    base: Seq<ProbabilityEstimate>,
    shift: ProbabilityEstimate,
    config: AggregatorConfig,
    as_of: Timestamp,
)
    requires
        is_floating_point(c),
        c.is_accurate(),
        c.has_log_odds(),
        c.rounds_differences(),
        of_kind(usable(base, contract@), EstimateKind::LogOddsShift).len() == 0,
        shift.contract@ == contract@,
        shift.kind == EstimateKind::LogOddsShift,
        shift.correlation_group is None,
        shift.probability.abs().le(two_to(2)),
        two_to(-800).le(weight(c, shift, as_of, config, usable(base, contract@))),
        weight(c, shift, as_of, config, usable(base, contract@)).le(two_to(800)),
        ({
            let before = fair_view(c, contract, base, config, as_of).midpoint;
            let after = fair_view(c, contract, base.push(shift), config, as_of).midpoint;
            &&& Double::from_bits(stats::PROB_EPSILON).lt(before)
            &&& before.lt(Double::from_bits(stats::PROB_CEILING))
            &&& Double::from_bits(stats::PROB_EPSILON).lt(after)
            &&& after.lt(Double::from_bits(stats::PROB_CEILING))
        }),
    ensures
        ({
            let before = fair_view(c, contract, base, config, as_of).midpoint;
            let after = fair_view(c, contract, base.push(shift), config, as_of).midpoint;
            let one = Double::from_bits(ONE);
            let odds_before = c.ln(c.over(before, c.minus(one, before)));
            let odds_after = c.ln(c.over(after, c.minus(one, after)));
            &&& gap(odds_after.exact() - odds_before.exact(), shift.probability.exact()) <= 4
                * two_to(-20).exact()
            &&& shift.probability.le(two_to(-17).neg()) ==> after.lt(before)
            &&& two_to(-17).le(shift.probability) ==> before.lt(after)
        }),
{
    let zero = Double::from_bits(ZERO);
    let one = Double::from_bits(ONE);
    let all = usable(base, contract@);
    let more = all.push(shift);
    lemma_one_shift(base, contract@, shift);
    let absolutes = of_kind(all, EstimateKind::Absolute);
    let none = of_kind(all, EstimateKind::LogOddsShift);
    let shifts = none.push(shift);
    let (weights, sum) = pool(c, absolutes, as_of, config, all);
    let mid = c.over(sum, weights);
    let spread = dispersion(c, absolutes, mid, as_of, config, all);
    lemma_pool_beside(c, absolutes, mid, as_of, config, all, shift);
    let w = weight(c, shift, as_of, config, more);
    assert(w == weight(c, shift, as_of, config, all));
    let p = shift.probability;
    let (shift_weights, shift_sum) = pool(c, shifts, as_of, config, more);
    assert(shifts.drop_last() =~= none);
    assert(shifts.last() == shift);
    reveal_with_fuel(pool, 2);
    law_powers_are_ordered(-800, 800);
    law_powers_are_ordered(2, 3);
    assert(shift_weights == c.plus(zero, w));
    assert(shift_weights == w);
    assert(shift_sum == c.plus(zero, c.times(w, p)));
    lemma_weighed(c, w, p);
    lemma_exact_power(-50);
    lemma_exact_power(-49);
    lemma_exact_power(-20);
    lemma_exact_power(0);
    lemma_exact_power(1);
    law_powers_are_ordered(-50, -30);
    law_powers_are_ordered(-49, -30);
    law_powers_are_ordered(-30, -20);
    law_exact_orders(two_to(-49), two_to(-30));
    law_exact_orders(two_to(-30), two_to(-20));
    assert(2 * two_to(-50).exact() == two_to(-49).exact());
    let mean = c.over(shift_sum, shift_weights);
    assert(mean.is_finite() && gap(mean.exact(), p.exact()) <= two_to(-49).exact()) by {
        let t = c.times(w, p);
        if t.is_zero() {
            lemma_nothing_weighed(c, w, t, shift_sum);
        } else {
            assert(shift_sum == t);
        }
    }
    assert(gap(p.exact(), 0) <= 4 * unit()) by {
        law_exact_orders(p.abs(), two_to(2));
        law_exact_orders(zero, p.abs());
        assert(p.exact() == p.abs().exact() || p.exact() == -p.abs().exact());
    }
    let before = combined(c, weights, sum, spread, zero, zero, config).0;
    let after = combined(c, weights, sum, spread, shift_weights, shift_sum, config).0;
    assert(pool(c, none, as_of, config, all) == (zero, zero)) by {
        assert(none.len() == 0);
    }
    assert(before == fair_view(c, contract, base, config, as_of).midpoint);
    assert(after == fair_view(c, contract, base.push(shift), config, as_of).midpoint);
    assert(!mid.is_nan()) by {
        lemma_base_is_a_number(c, weights, sum, spread, config);
    }
    lemma_midpoint(c, weights, sum, spread, zero, zero, config);
    lemma_midpoint(c, weights, sum, spread, shift_weights, shift_sum, config);
    lemma_exact_power(-19);
    lemma_exact_power(-18);
    law_powers_are_ordered(-17, 0);
    assert(two_to(-17).exact() == 8 * two_to(-20).exact());
    let (a, b) = (c.log_odds_of(before), c.log_odds_of(after));
    let held = stats::clamp_probability(mid.clamp(zero, one));
    let l = c.log_odds_of(held).exact();
    let t = two_to(-20).exact();
    let e = two_to(-49).exact();
    assert(e <= t);
    assert(zero.exact() == 0);
    assert(gap(a.exact(), l) <= t + e);
    assert(gap(b.exact(), l + mean.exact()) <= t + e);
    lemma_four_steps();
    assert(gap(b.exact() - a.exact(), p.exact()) <= 2 * t + 3 * e);
    if p.le(two_to(-17).neg()) {
        law_exact_orders(p, two_to(-17).neg());
        assert(two_to(-17).neg().exact() == -two_to(-17).exact());
        if !after.lt(before) {
            lemma_log_odds_keep_order(c, before, after);
            law_exact_orders(a, b);
        }
    }
    if two_to(-17).le(p) {
        law_exact_orders(two_to(-17), p);
        if !before.lt(after) {
            lemma_log_odds_keep_order(c, after, before);
            law_exact_orders(b, a);
        }
    }
}

proof fn lemma_four_steps()
    ensures
        3 * two_to(-49).exact() <= two_to(-20).exact(),
        two_to(-17).exact() == 8 * two_to(-20).exact(),
{
    lemma_exact_power(-20);
    lemma_exact_power(-19);
    lemma_exact_power(-18);
    lemma_exact_power(-49);
    lemma_exact_power(-48);
    law_powers_are_ordered(-47, -20);
    law_exact_orders(two_to(-47), two_to(-20));
}

proof fn lemma_nothing_weighed(c: &Arithmetic, w: Double, t: Double, sum: Double)
    requires
        is_floating_point(c),
        two_to(-800).le(w),
        w.le(two_to(800)),
        t.is_zero(),
        sum == c.plus(Double::from_bits(ZERO), t),
    ensures
        c.over(sum, w).is_finite(),
        c.over(sum, w).exact() == 0,
        c.over(t, w).exact() == 0,
{
    law_powers_are_ordered(-800, 800);
    assert(sum.is_zero());
    assert(c.over(sum, w).is_zero());
    assert(c.over(t, w).is_zero());
    law_exact_orders(c.over(sum, w), c.over(sum, w));
    law_exact_orders(c.over(t, w), c.over(t, w));
}

proof fn lemma_base_is_a_number(
    c: &Arithmetic,
    weights: Double,
    sum: Double,
    spread: Double,
    config: AggregatorConfig,
)
    requires
        is_floating_point(c),
        c.rounds_differences(),
        c.has_log_odds(),
        !combined(
            c,
            weights,
            sum,
            spread,
            Double::from_bits(ZERO),
            Double::from_bits(ZERO),
            config,
        ).0.is_nan(),
    ensures
        !c.over(sum, weights).is_nan(),
{
    reveal(Arithmetic::rounds_differences);
    let zero = Double::from_bits(ZERO);
    let one = Double::from_bits(ONE);
    let base = c.over(sum, weights);
    if base.is_nan() {
        let held = stats::clamp_probability(base.clamp(zero, one));
        assert(held.is_nan());
        let odds = c.over(held, c.minus(one, held));
        assert(odds.is_nan());
        reveal(Arithmetic::has_log_odds);
        assert(c.ln(odds).is_nan());
        let x = c.plus(c.ln(odds), zero);
        assert(x.is_nan());
        assert(x.neg().is_nan());
        assert(c.exp(x.neg()).is_nan());
        assert(c.plus(one, c.exp(x.neg())).is_nan());
        assert(c.over(one, c.plus(one, c.exp(x.neg()))).is_nan());
    }
}

proof fn lemma_log_odds_keep_order(c: &Arithmetic, low: Double, high: Double)
    requires
        is_floating_point(c),
        c.has_log_odds(),
        low.le(high),
        Double::from_bits(stats::PROB_EPSILON).lt(low),
        high.lt(Double::from_bits(stats::PROB_CEILING)),
    ensures
        c.log_odds_of(low).le(c.log_odds_of(high)),
{
    reveal(Arithmetic::has_log_odds);
    reveal(Arithmetic::rounds_quotients);
    reveal(Arithmetic::parts_neighbours);
    let zero = Double::from_bits(ZERO);
    let one = Double::from_bits(ONE);
    law_powers_are_ordered(-53, 0);
    let (r, s) = (c.minus(one, low), c.minus(one, high));
    assert(two_to(-53).le(r) && two_to(-53).le(s));
    assert(r.le(one) && s.le(one));
    assert(s.le(r));
    let (x, y) = (c.over(low, r), c.over(high, s));
    assert(zero.le(x) && zero.le(y));
    assert(zero.le(c.over(low, s)));
    assert(x.le(c.over(low, s)));
    assert(c.over(low, s).le(y));
}

} // verus!
