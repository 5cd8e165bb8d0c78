//! What a fair value says of its own confidence: weights that fall with age and company, a sample
//! size that is a number, and a band that widens with disagreement.
use vstd::prelude::*;
use crate::alpha::aggregator::{
    aged_std, combined, dispersion, fair_view, group_size, haircut, has_group, has_opinion,
    in_group, law_zero_shift_is_a_no_op, of_kind, pool, pooled_variance, sample_size, usable,
    weight, AggregatorConfig, DECAY_FLOOR,
};
use crate::alpha::stats;
use crate::double::{Arithmetic, Double, HALF, INFINITY, ONE, SIGN, ZERO};
use crate::rounding::{law_powers_are_ordered, lemma_sum_grows, lemma_sum_stays, two_to};
use crate::types::alpha::{
    EstimateKind, FairValue, ProbabilityEstimate, StalenessPolicy, BAND_TOLERANCE,
};
use crate::types::contract::CanonicalContractId;
use crate::types::time::Timestamp;

verus! {

/// Whether the arithmetic is that of a floating-point unit with its library of functions.
pub open spec fn is_floating_point(c: &Arithmetic) -> bool {
    c.is_ieee() && c.keeps_order() && c.rounds() && c.has_functions()
}

impl AggregatorConfig {
    /// Whether the correlation that is assumed within a group is one between 0 and 1.
    pub open spec fn has_correlation(self) -> bool {
        Double::from_bits(ZERO).le(self.assumed_correlation) && self.assumed_correlation.le(
            Double::from_bits(ONE),
        )
    }
}

/// The weight of an estimate as if it stood alone: its inverse variance.
pub open spec fn own_weight(
    c: &Arithmetic,
    e: ProbabilityEstimate,
    as_of: Timestamp,
    config: AggregatorConfig,
) -> Double {
    let std = aged_std(c, e, as_of, config);
    c.over(Double::from_bits(ONE), c.times(std, std))
}

proof fn lemma_group_size(all: Seq<ProbabilityEstimate>, group: Seq<char>)
    ensures
        group_size(all, group) <= all.len(),
        has_group(all, group) ==> group_size(all, group) >= 1,
    decreases all.len(),
{
    if all.len() > 0 {
        lemma_group_size(all.drop_last(), group);
        if has_group(all, group) && !in_group(all.last(), group) {
            let i = choose|i: int| 0 <= i < all.len() && in_group(#[trigger] all[i], group);
            assert(all.drop_last()[i] == all[i]);
        }
    }
}

proof fn lemma_haircut(c: &Arithmetic, n: u64, config: AggregatorConfig)
    requires
        is_floating_point(c),
        n >= 1,
        config.assumed_correlation.ge(Double::from_bits(ZERO)),
        config.assumed_correlation.is_finite(),
    ensures
        ({
            let k = c.of_count(n);
            let h = haircut(c, k, config);
            &&& Double::from_bits(ONE).le(k)
            &&& k.le(two_to(64))
            &&& Double::from_bits(ONE).le(h)
            &&& h.bits <= INFINITY
            &&& config.has_correlation() ==> h.le(two_to(64))
        }),
{
    reveal(Arithmetic::rounds_sums);
    reveal(Arithmetic::rounds_counts);
    reveal(Arithmetic::rounds_products);
    reveal(Arithmetic::adds_powers);
    let zero = Double::from_bits(ZERO);
    let one = Double::from_bits(ONE);
    let k = c.of_count(n);
    let r = config.assumed_correlation;
    assert(c.of_count(1).le(k));
    let d = c.minus(k, one);
    assert(d.le(k));
    assert(c.minus(one, one).is_zero());
    assert(c.minus(one, one).le(d));
    let t = c.times(d, r);
    assert(zero.le(t));
    let h = c.plus(one, t);
    assert(one.le(h));
    if config.has_correlation() {
        assert(c.times(d, one) == d);
        assert(t.le(d));
        law_powers_are_ordered(10, 64);
        law_powers_are_ordered(0, 10);
        lemma_sum_stays(c, two_to(64), one, 64);
        assert(c.plus(one, t).le(c.plus(one, two_to(64))));
        assert(c.plus(two_to(64), one) == c.plus(one, two_to(64)));
    }
}

/// Company never adds weight: an estimate of a group weighs no more than it would alone. The
/// correlation must not be negative, and not so large that an infinite weight is divided by an
/// infinite cut.
pub proof fn law_company_never_adds_weight(
    c: &Arithmetic,
    e: ProbabilityEstimate,
    as_of: Timestamp,
    config: AggregatorConfig,
    all: Seq<ProbabilityEstimate>,
)
    requires
        is_floating_point(c),
        config.assumed_correlation.ge(Double::from_bits(ZERO)),
        config.assumed_correlation.is_finite(),
        config.has_correlation() || own_weight(c, e, as_of, config).is_finite(),
        all.contains(e),
        all.len() <= u64::MAX,
        !aged_std(c, e, as_of, config).is_nan(),
    ensures
        weight(c, e, as_of, config, all).le(own_weight(c, e, as_of, config)),
        Double::from_bits(ZERO).le(weight(c, e, as_of, config, all)),
        e.correlation_group is None ==> weight(c, e, as_of, config, all) == own_weight(
            c,
            e,
            as_of,
            config,
        ),
{
    reveal(Arithmetic::rounds_products);
    reveal(Arithmetic::rounds_quotients);
    let one = Double::from_bits(ONE);
    let std = aged_std(c, e, as_of, config);
    let square = c.times(std, std);
    assert(square.bits <= INFINITY);
    let w = c.over(one, square);
    assert(Double::from_bits(ZERO).le(w));
    if let Some(g) = e.correlation_group {
        let i = choose|i: int| 0 <= i < all.len() && all[i] == e;
        assert(in_group(all[i], g@));
        lemma_group_size(all, g@);
        let n = group_size(all, g@) as u64;
        lemma_haircut(c, n, config);
        law_powers_are_ordered(64, 64);
        let h = haircut(c, c.of_count(n), config);
        assert(c.over(w, one) == w);
        assert(Double::from_bits(ZERO).le(c.over(w, h)));
        assert(c.over(w, h).le(w));
    }
}

/// What age leaves of an estimate's confidence, from 1 down to a floor.
pub open spec fn decay(
    c: &Arithmetic,
    e: ProbabilityEstimate,
    as_of: Timestamp,
    config: AggregatorConfig,
) -> Double {
    let age = as_of.age(e.as_of);
    let age_ns = c.of_count(
        if age > 0 {
            age as u64
        } else {
            0
        },
    );
    c.power(
        Double::from_bits(HALF),
        c.over(age_ns, c.of_signed(config.staleness_half_life_ns)),
    ).larger(Double::from_bits(DECAY_FLOOR))
}

proof fn lemma_decay(
    c: &Arithmetic,
    e: ProbabilityEstimate,
    early: Timestamp,
    late: Timestamp,
    config: AggregatorConfig,
)
    requires
        is_floating_point(c),
        config.staleness_half_life_ns > 0,
        early.0 <= late.0,
    ensures
        decay(c, e, late, config).le(decay(c, e, early, config)),
        Double::from_bits(DECAY_FLOOR).le(decay(c, e, late, config)),
        decay(c, e, early, config).le(Double::from_bits(ONE)),
{
    reveal(Arithmetic::rounds_quotients);
    reveal(Arithmetic::rounds_counts);
    reveal(Arithmetic::has_functions);
    let zero = Double::from_bits(ZERO);
    let life = c.of_count(config.staleness_half_life_ns as u64);
    assert(c.of_count(1).le(life));
    let (a, b) = (early.age(e.as_of), late.age(e.as_of));
    assert(a <= b);
    let m: u64 = if a > 0 { a as u64 } else { 0 };
    let n: u64 = if b > 0 { b as u64 } else { 0 };
    assert(c.of_count(m).le(c.of_count(n)));
    let x = c.over(c.of_count(m), life);
    let y = c.over(c.of_count(n), life);
    assert(zero.le(x) && zero.le(y));
    assert(x.le(y));
    assert(c.power(Double::from_bits(HALF), y).le(c.power(Double::from_bits(HALF), x)));
}

proof fn lemma_aged(
    c: &Arithmetic,
    e: ProbabilityEstimate,
    early: Timestamp,
    late: Timestamp,
    config: AggregatorConfig,
)
    requires
        is_floating_point(c),
        config.staleness_half_life_ns > 0,
        early.0 <= late.0,
        e.std_dev.ge(Double::from_bits(ZERO)),
    ensures
        Double::from_bits(ZERO).le(aged_std(c, e, early, config)),
        aged_std(c, e, early, config).le(aged_std(c, e, late, config)),
        own_weight(c, e, late, config).le(own_weight(c, e, early, config)),
        Double::from_bits(ZERO).le(own_weight(c, e, late, config)),
{
    reveal(Arithmetic::rounds_products);
    reveal(Arithmetic::rounds_quotients);
    let one = Double::from_bits(ONE);
    let floored = e.std_dev.larger(config.min_std_dev);
    let (s, t) = (aged_std(c, e, early, config), aged_std(c, e, late, config));
    if e.staleness == StalenessPolicy::Decays {
        lemma_decay(c, e, early, late, config);
        assert(s == c.over(floored, decay(c, e, early, config)));
        assert(t == c.over(floored, decay(c, e, late, config)));
    }
    assert(Double::from_bits(ZERO).le(s));
    assert(s.le(t));
    let (p, q) = (c.times(s, s), c.times(t, t));
    assert(p.bits <= INFINITY && q.bits <= INFINITY);
    assert(p.le(q));
    assert(c.over(one, q).le(c.over(one, p)));
}

/// Age never adds weight: as of a later time an estimate weighs no more than before, among the
/// same others. The half-life must be positive.
pub proof fn law_age_never_adds_weight(
    c: &Arithmetic,
    e: ProbabilityEstimate,
    early: Timestamp,
    late: Timestamp,
    config: AggregatorConfig,
    all: Seq<ProbabilityEstimate>,
)
    requires
        is_floating_point(c),
        config.has_correlation(),
        config.staleness_half_life_ns > 0,
        early.0 <= late.0,
        e.std_dev.ge(Double::from_bits(ZERO)),
        all.contains(e),
        all.len() <= u64::MAX,
    ensures
        weight(c, e, late, config, all).le(weight(c, e, early, config, all)),
        Double::from_bits(ZERO).le(weight(c, e, late, config, all)),
{
    lemma_aged(c, e, early, late, config);
    law_company_never_adds_weight(c, e, early, config, all);
    law_company_never_adds_weight(c, e, late, config, all);
    if let Some(g) = e.correlation_group {
        reveal(Arithmetic::rounds_quotients);
        let i = choose|i: int| 0 <= i < all.len() && all[i] == e;
        assert(in_group(all[i], g@));
        lemma_group_size(all, g@);
        let n = group_size(all, g@) as u64;
        lemma_haircut(c, n, config);
        law_powers_are_ordered(64, 64);
        let h = haircut(c, c.of_count(n), config);
        let (v, w) = (own_weight(c, e, late, config), own_weight(c, e, early, config));
        assert(c.over(v, h).le(c.over(w, h)));
    }
}

proof fn lemma_pool_of_weights(
    c: &Arithmetic,
    estimates: Seq<ProbabilityEstimate>,
    as_of: Timestamp,
    config: AggregatorConfig,
    all: Seq<ProbabilityEstimate>,
)
    requires
        is_floating_point(c),
        config.has_correlation(),
        config.staleness_half_life_ns > 0,
        forall|i: int|
            0 <= i < estimates.len() ==> (#[trigger] estimates[i]).std_dev.ge(
                Double::from_bits(ZERO),
            ) && all.contains(estimates[i]),
        all.len() <= u64::MAX,
    ensures
        Double::from_bits(ZERO).le(pool(c, estimates, as_of, config, all).0),
        estimates.len() > 0 && pool(c, estimates, as_of, config, all).0.is_finite() ==> pool(
            c,
            estimates.drop_last(),
            as_of,
            config,
            all,
        ).0.is_finite() && weight(c, estimates.last(), as_of, config, all).is_finite(),
    decreases estimates.len(),
{
    reveal(Arithmetic::rounds_sums);
    let zero = Double::from_bits(ZERO);
    if estimates.len() > 0 {
        let rest = estimates.drop_last();
        let e = estimates[estimates.len() - 1];
        assert(e == estimates.last());
        assert forall|i: int| 0 <= i < rest.len() implies (#[trigger] rest[i]).std_dev.ge(zero)
            && all.contains(rest[i]) by {
            assert(rest[i] == estimates[i]);
        }
        lemma_pool_of_weights(c, rest, as_of, config, all);
        law_age_never_adds_weight(c, e, as_of, as_of, config, all);
        let (a, _) = pool(c, rest, as_of, config, all);
        let w = weight(c, e, as_of, config, all);
        assert(zero.le(c.plus(a, w)));
        // An infinite term makes the sum infinite, on either side.
        assert(a.is_finite() ==> a.le(c.plus(a, w)));
        assert(w.is_finite() ==> w.le(c.plus(w, a)));
        assert(c.plus(a, zero).le(c.plus(a, w)));
        assert(c.plus(w, zero).le(c.plus(w, a)));
    }
}

/// The pool as a whole does not gain weight with age either, so the variance of independent
/// estimates never falls for it. The weight of the younger pool must be finite.
pub proof fn law_age_never_lowers_the_variance(
    c: &Arithmetic,
    estimates: Seq<ProbabilityEstimate>,
    early: Timestamp,
    late: Timestamp,
    config: AggregatorConfig,
    all: Seq<ProbabilityEstimate>,
)
    requires
        is_floating_point(c),
        config.has_correlation(),
        config.staleness_half_life_ns > 0,
        early.0 <= late.0,
        forall|i: int|
            0 <= i < estimates.len() ==> (#[trigger] estimates[i]).std_dev.ge(
                Double::from_bits(ZERO),
            ) && all.contains(estimates[i]),
        all.len() <= u64::MAX,
        pool(c, estimates, early, config, all).0.is_finite(),
    ensures
        ({
            let (young, _) = pool(c, estimates, early, config, all);
            let (aged, _) = pool(c, estimates, late, config, all);
            &&& Double::from_bits(ZERO).le(aged)
            &&& aged.le(young)
            &&& aged.gt(Double::from_bits(ZERO)) ==> c.over(Double::from_bits(ONE), young).le(
                c.over(Double::from_bits(ONE), aged),
            )
        }),
    decreases estimates.len(),
{
    reveal(Arithmetic::rounds_sums);
    reveal(Arithmetic::rounds_quotients);
    let zero = Double::from_bits(ZERO);
    if estimates.len() > 0 {
        let rest = estimates.drop_last();
        let e = estimates[estimates.len() - 1];
        assert(e == estimates.last());
        assert forall|i: int| 0 <= i < rest.len() implies (#[trigger] rest[i]).std_dev.ge(zero)
            && all.contains(rest[i]) by {
            assert(rest[i] == estimates[i]);
        }
        let w = weight(c, e, early, config, all);
        let v = weight(c, e, late, config, all);
        law_age_never_adds_weight(c, e, early, late, config, all);
        lemma_pool_of_weights(c, estimates, early, config, all);
        law_age_never_lowers_the_variance(c, rest, early, late, config, all);
        let (a, _) = pool(c, rest, early, config, all);
        let (b, _) = pool(c, rest, late, config, all);
        lemma_sum_grows(c, a, w);
        assert(c.plus(b, v).le(c.plus(b, w)));
        assert(c.plus(b, w) == c.plus(w, b));
        assert(c.plus(a, w) == c.plus(w, a));
        assert(c.plus(w, b).le(c.plus(w, a)));
    }
}

/// The variance of a pool is below neither that of independent estimates nor the weighted
/// variance of what they say.
pub proof fn law_variance_is_below_neither(c: &Arithmetic, weights: Double, spread: Double)
    ensures
        ({
            let variance = pooled_variance(c, weights, spread);
            let independent = c.over(Double::from_bits(ONE), weights);
            let disagreement = c.over(spread, weights);
            &&& !independent.is_nan() ==> independent.le(variance)
            &&& !disagreement.is_nan() ==> disagreement.le(variance)
            &&& variance == independent || variance == disagreement
        }),
{
}

/// The band widens with disagreement: where the same estimates are further from their mean, the
/// midpoint stays and the half-width does not shrink. The weights must be positive, the z-score
/// not negative and finite, and the variance that shifts add a number.
pub proof fn law_disagreement_never_narrows_the_band(
    c: &Arithmetic,
    weights: Double,
    sum: Double,
    less: Double,
    more: Double,
    shift_weights: Double,
    shift_sum: Double,
    config: AggregatorConfig,
)
    requires
        is_floating_point(c),
        weights.gt(Double::from_bits(ZERO)),
        less.le(more),
        less.ge(Double::from_bits(ZERO)),
        more.is_finite(),
        config.band_z_score.ge(Double::from_bits(ZERO)),
        config.band_z_score.is_finite(),
        config.min_band_half_width.ge(Double::from_bits(ZERO)),
        combined(c, weights, sum, less, shift_weights, shift_sum, config).0.gt(
            Double::from_bits(ZERO),
        ),
        shift_weights.gt(Double::from_bits(ZERO)) ==> c.over(
            Double::from_bits(ONE),
            shift_weights,
        ).is_finite(),
    ensures
        ({
            let calm = combined(c, weights, sum, less, shift_weights, shift_sum, config);
            let torn = combined(c, weights, sum, more, shift_weights, shift_sum, config);
            calm.0 == torn.0 && calm.1.le(torn.1)
        }),
{
    reveal(Arithmetic::rounds_sums);
    reveal(Arithmetic::rounds_products);
    reveal(Arithmetic::rounds_quotients);
    let zero = Double::from_bits(ZERO);
    let one = Double::from_bits(ONE);
    let z = config.band_z_score;
    let (mid, calm) = combined(c, weights, sum, less, shift_weights, shift_sum, config);
    let (_, torn) = combined(c, weights, sum, more, shift_weights, shift_sum, config);
    assert(zero.le(c.over(less, weights)) && zero.le(c.over(more, weights)));
    assert(c.over(less, weights).le(c.over(more, weights)));
    assert(zero.le(c.over(one, weights)));
    let v = pooled_variance(c, weights, less);
    let w = pooled_variance(c, weights, more);
    assert(zero.le(v) && v.le(w));
    let rest = c.minus(one, mid);
    assert(mid.le(one) && mid.is_finite());
    assert(rest.le(one));
    assert(c.minus(one, one).is_zero());
    assert(c.minus(one, one).le(rest));
    assert(c.times(mid, one) == mid);
    assert(zero.le(c.times(mid, rest)));
    assert(c.times(mid, rest).le(c.times(mid, one)));
    let swing = c.integer_power(c.times(mid, rest), 2);
    assert(zero.le(swing) && swing.is_finite());
    let shift_variance = if shift_weights.gt(zero) {
        c.over(one, shift_weights)
    } else {
        zero
    };
    let added = c.times(swing, shift_variance);
    assert(zero.le(added));
    let (a, b) = (c.plus(v, added), c.plus(w, added));
    assert(zero.le(a) && zero.le(b));
    assert(c.plus(added, v) == a && c.plus(added, w) == b);
    assert(a.le(b));
    assert(c.sqrt(a).le(c.sqrt(b)));
    let (x, y) = (c.times(z, c.sqrt(a)), c.times(z, c.sqrt(b)));
    assert(calm == x.larger(config.min_band_half_width));
    assert(torn == y.larger(config.min_band_half_width));
    if !x.is_nan() && !y.is_nan() {
        assert(x.le(y));
    }
}

proof fn lemma_grouped(all: Seq<ProbabilityEstimate>, kind: EstimateKind)
    requires
        all.len() <= u64::MAX,
    ensures
        forall|i: int|
            0 <= i < of_kind(all, kind).len() ==> all.contains(#[trigger] of_kind(all, kind)[i])
                && of_kind(all, kind)[i].kind == kind,
        forall|e: ProbabilityEstimate, g: String|
            #![trigger all.contains(e), group_size(all, g@)]
            all.contains(e) && e.correlation_group == Some(g) ==> 1 <= group_size(all, g@)
                <= u64::MAX,
{
    let p = |e: ProbabilityEstimate| e.kind == kind;
    assert forall|i: int| 0 <= i < of_kind(all, kind).len() implies all.contains(
        #[trigger] of_kind(all, kind)[i],
    ) && of_kind(all, kind)[i].kind == kind by {
        all.lemma_filter_pred(p, i);
        all.lemma_filter_contains_rev(p, of_kind(all, kind)[i]);
    }
    assert forall|e: ProbabilityEstimate, g: String|
        #![trigger all.contains(e), group_size(all, g@)]
        all.contains(e) && e.correlation_group == Some(g) implies 1 <= group_size(all, g@)
        <= u64::MAX by {
        let i = choose|i: int| 0 <= i < all.len() && all[i] == e;
        assert(in_group(all[i], g@));
        lemma_group_size(all, g@);
    }
}

proof fn lemma_sample_size(
    c: &Arithmetic,
    estimates: Seq<ProbabilityEstimate>,
    config: AggregatorConfig,
    all: Seq<ProbabilityEstimate>,
)
    requires
        is_floating_point(c),
        config.assumed_correlation.ge(Double::from_bits(ZERO)),
        config.assumed_correlation.is_finite(),
        forall|i: int| 0 <= i < estimates.len() ==> all.contains(#[trigger] estimates[i]),
        forall|e: ProbabilityEstimate, g: String|
            #![trigger all.contains(e), group_size(all, g@)]
            all.contains(e) && e.correlation_group == Some(g) ==> 1 <= group_size(all, g@)
                <= u64::MAX,
    ensures
        sample_size(c, estimates, config, all).ge(Double::from_bits(ZERO)),
        sample_size(c, estimates, config, all).le(two_to(118)),
    decreases estimates.len(),
{
    reveal(Arithmetic::rounds_quotients);
    let zero = Double::from_bits(ZERO);
    let one = Double::from_bits(ONE);
    law_powers_are_ordered(64, 118);
    law_powers_are_ordered(0, 64);
    if estimates.len() > 0 {
        let rest = estimates.drop_last();
        let e = estimates[estimates.len() - 1];
        assert(e == estimates.last());
        assert forall|i: int| 0 <= i < rest.len() implies all.contains(#[trigger] rest[i]) by {
            assert(rest[i] == estimates[i]);
        }
        lemma_sample_size(c, rest, config, all);
        let before = sample_size(c, rest, config, all);
        match e.correlation_group {
            None => {
                lemma_sum_stays(c, before, one, 118);
            },
            Some(g) => {
                assert(all.contains(e));
                let n = group_size(all, g@) as u64;
                lemma_haircut(c, n, config);
                let k = c.of_count(n);
                let share = c.over(k, haircut(c, k, config));
                assert(zero.le(share));
                assert(c.over(k, one) == k);
                assert(share.le(k));
                lemma_sum_stays(c, before, share, 118);
            },
        }
    }
}

/// A fair value passes its own check: the band holds the midpoint, all three are probabilities,
/// and the sample size is finite and not negative. A floor of the half-width that is not lost in
/// rounding puts the midpoint strictly inside the band. It holds wherever the midpoint is a
/// number, the floor is not negative, and neither is the correlation.
pub proof fn law_fair_value_passes_its_check(
    c: &Arithmetic,
    fv: FairValue,
    contract: CanonicalContractId,
    estimates: Seq<ProbabilityEstimate>,
    config: AggregatorConfig,
    as_of: Timestamp,
)
    requires
        is_floating_point(c),
        fv@ == fair_view(c, contract, estimates, config, as_of),
        !fv.midpoint.is_nan(),
        config.min_band_half_width.ge(Double::from_bits(ZERO)),
        config.assumed_correlation.ge(Double::from_bits(ZERO)),
        config.assumed_correlation.is_finite(),
        estimates.len() <= u64::MAX,
    ensures
        fv.band_low.le(fv.midpoint),
        fv.midpoint.le(fv.band_high),
        Double::from_bits(ZERO).le(fv.band_low),
        fv.band_high.le(Double::from_bits(ONE)),
        fv.effective_sample_size.is_finite(),
        fv.effective_sample_size.ge(Double::from_bits(ZERO)),
        fv.fault(c) is None,
        config.min_band_half_width.ge(two_to(-53)) ==> fv.band_low.lt(fv.midpoint)
            && fv.midpoint.lt(fv.band_high),
{
    let zero = Double::from_bits(ZERO);
    let one = Double::from_bits(ONE);
    let all = usable(estimates, contract@);
    estimates.lemma_filter_len(|e: ProbabilityEstimate| e.contract@ == contract@);
    lemma_grouped(all, EstimateKind::Absolute);
    let absolutes = of_kind(all, EstimateKind::Absolute);
    let shifts = of_kind(all, EstimateKind::LogOddsShift);
    lemma_sample_size(c, absolutes, config, all);
    law_powers_are_ordered(-53, 118);
    let (weights, sum) = pool(c, absolutes, as_of, config, all);
    let spread = dispersion(c, absolutes, c.over(sum, weights), as_of, config, all);
    let (shift_weights, shift_sum) = pool(c, shifts, as_of, config, all);
    let (midpoint, half_width) = combined(
        c,
        weights,
        sum,
        spread,
        shift_weights,
        shift_sum,
        config,
    );
    assert(half_width.ge(zero));
    assert(config.min_band_half_width.le(half_width));
    assert(zero.lt(midpoint) && midpoint.lt(one));
    let (low, high) = (c.minus(midpoint, half_width), c.plus(midpoint, half_width));
    assert(low.le(midpoint));
    assert(midpoint.le(high));
    if config.min_band_half_width.ge(two_to(-53)) {
        reveal(Arithmetic::parts_neighbours);
        assert(low.lt(midpoint));
        assert(midpoint.lt(high));
    }
    let eps = Double::from_bits(BAND_TOLERANCE);
    assert(c.minus(fv.band_low, eps).le(fv.band_low));
    assert(fv.band_high.le(c.plus(fv.band_high, eps)));
}

impl AggregatorConfig {
    /// Whether the pool can be relied on to give numbers: age counts forwards, and the
    /// correlation is one.
    pub open spec fn is_ordinary(self) -> bool {
        self.staleness_half_life_ns > 0 && self.has_correlation()
    }
}

/// Whether an estimate is valid and its numbers leave room to be squared and summed: a deviation,
/// floored, between 2^-450 and 2^450, and a shift of no more than 2^60 either way.
pub open spec fn is_ordinary(
    c: &Arithmetic,
    e: ProbabilityEstimate,
    config: AggregatorConfig,
) -> bool {
    let floored = e.std_dev.larger(config.min_std_dev);
    &&& e.fault(c) is None
    &&& two_to(-450).le(floored)
    &&& floored.le(two_to(450))
    &&& e.kind == EstimateKind::LogOddsShift ==> e.probability.abs().le(two_to(60))
}

proof fn lemma_ordinary_weight(
    c: &Arithmetic,
    e: ProbabilityEstimate,
    as_of: Timestamp,
    config: AggregatorConfig,
    all: Seq<ProbabilityEstimate>,
)
    requires
        is_floating_point(c),
        config.is_ordinary(),
        is_ordinary(c, e, config),
        all.contains(e),
        all.len() <= u64::MAX,
    ensures
        two_to(-1004).le(weight(c, e, as_of, config, all)),
        weight(c, e, as_of, config, all).le(two_to(900)),
{
    reveal(Arithmetic::rounds_products);
    reveal(Arithmetic::rounds_quotients);
    reveal(Arithmetic::multiplies_powers);
    let zero = Double::from_bits(ZERO);
    let one = Double::from_bits(ONE);
    law_powers_are_ordered(-450, 450);
    law_powers_are_ordered(-20, 0);
    law_powers_are_ordered(450, 470);
    law_powers_are_ordered(-900, 940);
    law_powers_are_ordered(-940, 900);
    law_powers_are_ordered(-1004, -940);
    law_powers_are_ordered(0, 64);
    let floored = e.std_dev.larger(config.min_std_dev);
    let std = aged_std(c, e, as_of, config);
    if e.staleness == StalenessPolicy::Decays {
        lemma_decay(c, e, as_of, as_of, config);
        let d = decay(c, e, as_of, config);
        assert(std == c.over(floored, d));
        assert(two_to(-20).le(Double::from_bits(DECAY_FLOOR)));
        assert(c.over(floored, one) == floored);
        assert(floored.le(std));
        let most = c.over(floored, two_to(-20));
        assert(zero.le(most));
        assert(std.le(most));
        assert(c.over(two_to(450), two_to(-20)) == two_to(470));
        assert(most.le(two_to(470)));
    }
    assert(two_to(-450).le(std) && std.le(two_to(470)));
    let square = c.times(std, std);
    assert(c.times(two_to(-450), two_to(-450)) == two_to(-900));
    assert(c.times(two_to(470), two_to(470)) == two_to(940));
    assert(two_to(-900).le(square) && square.le(two_to(940)));
    let own = own_weight(c, e, as_of, config);
    assert(two_to(0) == one);
    assert(c.over(two_to(0), two_to(-900)) == two_to(900));
    assert(c.over(two_to(0), two_to(940)) == two_to(-940));
    assert(zero.le(own));
    assert(two_to(-940).le(own) && own.le(two_to(900)));
    law_company_never_adds_weight(c, e, as_of, config, all);
    if let Some(g) = e.correlation_group {
        let i = choose|i: int| 0 <= i < all.len() && all[i] == e;
        assert(in_group(all[i], g@));
        lemma_group_size(all, g@);
        let n = group_size(all, g@) as u64;
        lemma_haircut(c, n, config);
        let h = haircut(c, c.of_count(n), config);
        assert(c.over(two_to(-940), two_to(64)) == two_to(-1004));
        let least = c.over(two_to(-940), h);
        assert(zero.le(least));
        assert(two_to(-1004).le(least));
        assert(least.le(c.over(own, h)));
    }
}

proof fn lemma_ordinary_pool(
    c: &Arithmetic,
    absolutes: Seq<ProbabilityEstimate>,
    as_of: Timestamp,
    config: AggregatorConfig,
    all: Seq<ProbabilityEstimate>,
)
    requires
        is_floating_point(c),
        config.is_ordinary(),
        all.len() <= u64::MAX,
        forall|i: int|
            0 <= i < absolutes.len() ==> all.contains(#[trigger] absolutes[i]) && is_ordinary(
                c,
                absolutes[i],
                config,
            ) && absolutes[i].kind == EstimateKind::Absolute,
    ensures
        ({
            let (weights, sum) = pool(c, absolutes, as_of, config, all);
            &&& Double::from_bits(ZERO).le(weights)
            &&& weights.le(two_to(954))
            &&& Double::from_bits(ZERO).le(sum)
            &&& sum.le(two_to(954))
            &&& absolutes.len() > 0 ==> weights.gt(Double::from_bits(ZERO))
        }),
    decreases absolutes.len(),
{
    let zero = Double::from_bits(ZERO);
    let one = Double::from_bits(ONE);
    law_powers_are_ordered(-1004, 954);
    law_powers_are_ordered(900, 954);
    if absolutes.len() > 0 {
        let rest = absolutes.drop_last();
        let e = absolutes[absolutes.len() - 1];
        assert(e == absolutes.last());
        assert forall|i: int| 0 <= i < rest.len() implies all.contains(#[trigger] rest[i])
            && is_ordinary(c, rest[i], config) && rest[i].kind == EstimateKind::Absolute by {
            assert(rest[i] == absolutes[i]);
        }
        lemma_ordinary_pool(c, rest, as_of, config, all);
        lemma_ordinary_weight(c, e, as_of, config, all);
        let (weights, sum) = pool(c, rest, as_of, config, all);
        let w = weight(c, e, as_of, config, all);
        lemma_sum_stays(c, weights, w, 954);
        lemma_sum_grows(c, weights, w);
        let p = e.probability;
        assert(zero.le(p) && p.le(one));
        assert(c.times(w, one) == w);
        assert(zero.le(c.times(w, p)));
        assert(c.times(w, p).le(w));
        lemma_sum_stays(c, sum, c.times(w, p), 954);
    }
}

proof fn lemma_ordinary_shifts(
    c: &Arithmetic,
    shifts: Seq<ProbabilityEstimate>,
    as_of: Timestamp,
    config: AggregatorConfig,
    all: Seq<ProbabilityEstimate>,
)
    requires
        is_floating_point(c),
        config.is_ordinary(),
        all.len() <= u64::MAX,
        forall|i: int|
            0 <= i < shifts.len() ==> all.contains(#[trigger] shifts[i]) && is_ordinary(
                c,
                shifts[i],
                config,
            ) && shifts[i].kind == EstimateKind::LogOddsShift,
    ensures
        ({
            let (weights, sum) = pool(c, shifts, as_of, config, all);
            let most = c.times(two_to(60), weights);
            &&& Double::from_bits(ZERO).le(weights)
            &&& weights.le(two_to(954))
            &&& Double::from_bits(ZERO).le(most)
            &&& most.is_finite()
            &&& most.neg().le(sum)
            &&& sum.le(most)
        }),
    decreases shifts.len(),
{
    reveal(Arithmetic::rounds_sums);
    reveal(Arithmetic::rounds_products);
    reveal(Arithmetic::multiplies_powers);
    let zero = Double::from_bits(ZERO);
    let large = two_to(60);
    law_powers_are_ordered(60, 954);
    law_powers_are_ordered(900, 954);
    law_powers_are_ordered(-1004, 1014);
    assert(c.times(large, two_to(954)) == two_to(1014));
    if shifts.len() > 0 {
        let rest = shifts.drop_last();
        let e = shifts[shifts.len() - 1];
        assert(e == shifts.last());
        assert forall|i: int| 0 <= i < rest.len() implies all.contains(#[trigger] rest[i])
            && is_ordinary(c, rest[i], config) && rest[i].kind == EstimateKind::LogOddsShift by {
            assert(rest[i] == shifts[i]);
        }
        lemma_ordinary_shifts(c, rest, as_of, config, all);
        lemma_ordinary_weight(c, e, as_of, config, all);
        let (weights, sum) = pool(c, rest, as_of, config, all);
        let w = weight(c, e, as_of, config, all);
        lemma_sum_stays(c, weights, w, 954);
        lemma_shift_step(c, weights, sum, w, e.probability);
    } else {
        assert(c.times(large, zero).is_zero());
    }
}

proof fn lemma_shift_step(c: &Arithmetic, weights: Double, sum: Double, w: Double, p: Double)
    requires
        is_floating_point(c),
        Double::from_bits(ZERO).le(weights),
        weights.le(two_to(954)),
        Double::from_bits(ZERO).le(w),
        w.le(two_to(900)),
        c.plus(weights, w).le(two_to(954)),
        Double::from_bits(ZERO).le(c.plus(weights, w)),
        c.times(two_to(60), weights).neg().le(sum),
        sum.le(c.times(two_to(60), weights)),
        p.is_finite(),
        p.abs().le(two_to(60)),
    ensures
        ({
            let most = c.times(two_to(60), c.plus(weights, w));
            let next = c.plus(sum, c.times(w, p));
            &&& Double::from_bits(ZERO).le(most)
            &&& most.is_finite()
            &&& most.neg().le(next)
            &&& next.le(most)
        }),
{
    reveal(Arithmetic::rounds_sums);
    reveal(Arithmetic::rounds_products);
    reveal(Arithmetic::multiplies_powers);
    reveal(Arithmetic::scales_by_powers);
    let zero = Double::from_bits(ZERO);
    let large = two_to(60);
    law_powers_are_ordered(60, 954);
    law_powers_are_ordered(900, 954);
    law_powers_are_ordered(954, 1014);
    assert(c.times(large, two_to(954)) == two_to(1014));
    let (s, t) = (c.times(large, weights), c.times(large, w));
    let most = c.times(large, c.plus(weights, w));
    assert(zero.le(s) && s.le(two_to(1014)));
    assert(zero.le(t) && t.le(two_to(1014)));
    assert(zero.le(most) && most.le(two_to(1014)));
    assert(c.plus(s, t) == most);
    let q = p.abs();
    let add = c.times(w, p);
    assert(zero.le(c.times(w, q)));
    assert(c.times(large, w) == c.times(w, large));
    assert(c.times(w, q).le(t));
    if p.bits >= SIGN {
        assert(p == q.neg());
        assert(add == c.times(w, q).neg());
    }
    assert(t.neg().le(add) && add.le(t));
    let next = c.plus(sum, add);
    assert(!next.is_nan());
    // From above.
    assert(next.le(c.plus(sum, t)));
    assert(c.plus(sum, t) == c.plus(t, sum));
    assert(c.plus(t, sum).le(c.plus(t, s)));
    assert(c.plus(t, s) == c.plus(s, t));
    // From below.
    assert(c.plus(sum, t.neg()).le(next));
    assert(c.plus(sum, t.neg()) == c.plus(t.neg(), sum));
    assert(c.plus(t.neg(), s.neg()).le(c.plus(t.neg(), sum)));
    assert(c.plus(t.neg(), s.neg()).same(c.plus(t, s).neg()));
}

proof fn lemma_midpoint_is_a_number(
    c: &Arithmetic,
    weights: Double,
    sum: Double,
    spread: Double,
    shift_weights: Double,
    shift_sum: Double,
    config: AggregatorConfig,
)
    requires
        is_floating_point(c),
        weights.gt(Double::from_bits(ZERO)),
        sum.ge(Double::from_bits(ZERO)),
        sum.is_finite(),
        shift_weights.gt(Double::from_bits(ZERO)) ==> c.over(
            shift_sum,
            shift_weights,
        ).is_finite(),
    ensures
        !combined(c, weights, sum, spread, shift_weights, shift_sum, config).0.is_nan(),
{
    reveal(Arithmetic::rounds_sums);
    reveal(Arithmetic::rounds_quotients);
    reveal(Arithmetic::has_functions);
    let zero = Double::from_bits(ZERO);
    let one = Double::from_bits(ONE);
    let base = c.over(sum, weights);
    assert(zero.le(base));
    let held = stats::clamp_probability(base.clamp(zero, one));
    assert(zero.lt(held) && held.lt(one));
    let rest = c.minus(one, held);
    assert(zero.lt(rest));
    let logit = c.ln(c.over(held, rest));
    assert(zero.le(c.over(held, rest)));
    assert(!logit.is_nan());
    let shift = if shift_weights.gt(zero) {
        c.over(shift_sum, shift_weights)
    } else {
        zero
    };
    let odds = c.plus(logit, shift);
    assert(!odds.is_nan());
    assert(!odds.neg().is_nan());
    let e = c.exp(odds.neg());
    assert(zero.le(e));
    assert(one.le(c.plus(one, e)));
    assert(zero.le(c.over(one, c.plus(one, e))));
}

/// Ordinary estimates make a fair value: where there is an opinion, and every estimate for the
/// contract is valid with numbers that leave room, the midpoint is a number that lies strictly
/// between 0 and 1.
pub proof fn law_ordinary_estimates_have_a_midpoint(
    c: &Arithmetic,
    contract: CanonicalContractId,
    estimates: Seq<ProbabilityEstimate>,
    config: AggregatorConfig,
    as_of: Timestamp,
)
    requires
        is_floating_point(c),
        config.is_ordinary(),
        has_opinion(estimates, contract@),
        estimates.len() <= u64::MAX,
        forall|i: int|
            0 <= i < usable(estimates, contract@).len() ==> is_ordinary(
                c,
                #[trigger] usable(estimates, contract@)[i],
                config,
            ),
    ensures
        ({
            let midpoint = fair_view(c, contract, estimates, config, as_of).midpoint;
            &&& midpoint.gt(Double::from_bits(ZERO))
            &&& midpoint.lt(Double::from_bits(ONE))
        }),
{
    let zero = Double::from_bits(ZERO);
    let all = usable(estimates, contract@);
    estimates.lemma_filter_len(|e: ProbabilityEstimate| e.contract@ == contract@);
    lemma_grouped(all, EstimateKind::Absolute);
    lemma_grouped(all, EstimateKind::LogOddsShift);
    let absolutes = of_kind(all, EstimateKind::Absolute);
    let shifts = of_kind(all, EstimateKind::LogOddsShift);
    assert forall|e: ProbabilityEstimate| #[trigger] all.contains(e) implies is_ordinary(
        c,
        e,
        config,
    ) by {
        let i = choose|i: int| 0 <= i < all.len() && all[i] == e;
        assert(is_ordinary(c, usable(estimates, contract@)[i], config));
    }
    lemma_ordinary_pool(c, absolutes, as_of, config, all);
    lemma_ordinary_shifts(c, shifts, as_of, config, all);
    law_powers_are_ordered(60, 954);
    let (weights, sum) = pool(c, absolutes, as_of, config, all);
    let spread = dispersion(c, absolutes, c.over(sum, weights), as_of, config, all);
    let (shift_weights, shift_sum) = pool(c, shifts, as_of, config, all);
    if shift_weights.gt(zero) {
        lemma_shift_is_finite(c, shift_weights, shift_sum);
    }
    lemma_midpoint_is_a_number(c, weights, sum, spread, shift_weights, shift_sum, config);
}

proof fn lemma_shift_is_finite(c: &Arithmetic, weights: Double, sum: Double)
    requires
        is_floating_point(c),
        weights.gt(Double::from_bits(ZERO)),
        c.times(two_to(60), weights).is_finite(),
        c.times(two_to(60), weights).ge(Double::from_bits(ZERO)),
        c.times(two_to(60), weights).neg().le(sum),
        sum.le(c.times(two_to(60), weights)),
    ensures
        c.over(sum, weights).is_finite(),
{
    reveal(Arithmetic::rounds_quotients);
    reveal(Arithmetic::scales_by_powers);
    let zero = Double::from_bits(ZERO);
    let most = c.times(two_to(60), weights);
    law_powers_are_ordered(60, 954);
    assert(c.over(most, weights) == two_to(60));
    let size = sum.abs();
    assert(zero.le(size) && size.le(most));
    assert(zero.le(c.over(size, weights)));
    assert(c.over(size, weights).le(two_to(60)));
    if sum.bits >= SIGN {
        assert(sum == size.neg());
        assert(c.over(sum, weights) == c.over(size, weights).neg());
    }
}

/// A shift of zero beside ordinary estimates is a no-op on the level: the midpoint stays where the
/// estimates put it, to the bit, and the band is no narrower for it.
pub proof fn law_zero_shift_beside_ordinary_estimates(
    c: &Arithmetic,
    contract: CanonicalContractId,
    base: Seq<ProbabilityEstimate>,
    shift: ProbabilityEstimate,
    config: AggregatorConfig,
    as_of: Timestamp,
)
    requires
        is_floating_point(c),
        config.is_ordinary(),
        !config.band_z_score.lt(Double::from_bits(ZERO)),
        config.min_band_half_width.ge(Double::from_bits(ZERO)),
        has_opinion(base, contract@),
        base.len() < u64::MAX,
        forall|i: int|
            0 <= i < usable(base, contract@).len() ==> is_ordinary(
                c,
                #[trigger] usable(base, contract@)[i],
                config,
            ) && usable(base, contract@)[i].kind == EstimateKind::Absolute,
        is_ordinary(c, shift, config),
        shift.contract@ == contract@,
        shift.kind == EstimateKind::LogOddsShift,
        shift.probability.is_zero(),
        shift.correlation_group is None,
    ensures
        ({
            let before = fair_view(c, contract, base, config, as_of);
            let after = fair_view(c, contract, base.push(shift), config, as_of);
            &&& has_opinion(base.push(shift), contract@)
            &&& after.midpoint == before.midpoint
            &&& c.minus(after.midpoint, before.midpoint).is_zero()
            &&& after.band_low.le(before.band_low)
            &&& before.band_high.le(after.band_high)
            &&& before.width(c).le(after.width(c))
        }),
{
    let all = usable(base, contract@);
    base.lemma_filter_len(|e: ProbabilityEstimate| e.contract@ == contract@);
    law_ordinary_estimates_have_a_midpoint(c, contract, base, config, as_of);
    let more = all.push(shift);
    assert(more[all.len() as int] == shift);
    lemma_ordinary_weight(c, shift, as_of, config, more);
    law_powers_are_ordered(-1004, 900);
    lemma_grouped(all, EstimateKind::LogOddsShift);
    let shifts = of_kind(all, EstimateKind::LogOddsShift);
    if shifts.len() > 0 {
        let i = choose|i: int| 0 <= i < all.len() && all[i] == shifts[0];
        assert(usable(base, contract@)[i].kind == EstimateKind::Absolute);
    }
    law_zero_shift_is_a_no_op(c, contract, base, shift, config, as_of);
}

} // verus!
