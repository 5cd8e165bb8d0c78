//! Many opinions on one contract, combined into one fair value.
use vstd::prelude::*;
use crate::alpha::stats;
use crate::double::{Arithmetic, Double, HALF, ONE, ZERO};
use crate::rounding::{law_powers_are_ordered, two_to};
use crate::types::alpha::{
    EstimateKind, FairValue, FairView, ProbabilityEstimate, StalenessPolicy,
};
use crate::types::contract::CanonicalContractId;
use crate::types::time::Timestamp;

verus! {

/// 0.01
pub const DEFAULT_MIN_STD_DEV: u64 = 0x3F84_7AE1_47AE_147B;

/// 0.6
pub const DEFAULT_CORRELATION: u64 = 0x3FE3_3333_3333_3333;

/// 0.005
pub const DEFAULT_HALF_WIDTH: u64 = 0x3F74_7AE1_47AE_147B;

/// 1e-6
pub const DECAY_FLOOR: u64 = 0x3EB0_C6F7_A0B5_ED8D;

/// How estimates are pooled.
#[derive(Debug, Clone, Copy, PartialEq, Eq, Structural)]
pub struct AggregatorConfig {
    /// The half-width of the band in standard deviations.
    pub band_z_score: Double,
    /// A floor on standard deviations, so that no source claims unbounded weight.
    pub min_std_dev: Double,
    /// The age at which a decaying estimate has lost half its confidence.
    pub staleness_half_life_ns: i64,
    /// The correlation assumed between estimates of one group.
    pub assumed_correlation: Double,
    /// A floor on the half-width of the band.
    pub min_band_half_width: Double,
}

impl AggregatorConfig {
    /// The usual configuration.
    pub open spec fn usual() -> AggregatorConfig {
        AggregatorConfig {
            band_z_score: Double::from_bits(ONE),
            min_std_dev: Double::from_bits(DEFAULT_MIN_STD_DEV),
            staleness_half_life_ns: 30_000_000_000,
            assumed_correlation: Double::from_bits(DEFAULT_CORRELATION),
            min_band_half_width: Double::from_bits(DEFAULT_HALF_WIDTH),
        }
    }
}

impl Default for AggregatorConfig {
    fn default() -> (r: AggregatorConfig)
        ensures
            r == AggregatorConfig::usual(),
    {
        AggregatorConfig {
            band_z_score: Double::from_bits(ONE),
            min_std_dev: Double::from_bits(DEFAULT_MIN_STD_DEV),
            staleness_half_life_ns: 30_000_000_000,
            assumed_correlation: Double::from_bits(DEFAULT_CORRELATION),
            min_band_half_width: Double::from_bits(DEFAULT_HALF_WIDTH),
        }
    }
}

/// Why there is no fair value.
#[derive(Debug, Clone, Copy, PartialEq, Eq, Structural)]
pub enum AggregateError {
    /// No estimate was for the contract, or none of them was absolute. No opinion is not a
    /// 50% opinion.
    NoUsableEstimates,
}

/// The estimates that are for the contract.
pub open spec fn usable(estimates: Seq<ProbabilityEstimate>, contract: Seq<char>) -> Seq<
    ProbabilityEstimate,
> {
    estimates.filter(|e: ProbabilityEstimate| e.contract@ == contract)
}

/// The estimates of one kind.
pub open spec fn of_kind(estimates: Seq<ProbabilityEstimate>, kind: EstimateKind) -> Seq<
    ProbabilityEstimate,
> {
    estimates.filter(|e: ProbabilityEstimate| e.kind == kind)
}

/// Whether an estimate belongs to a group.
pub open spec fn in_group(e: ProbabilityEstimate, group: Seq<char>) -> bool {
    match e.correlation_group {
        Some(g) => g@ == group,
        None => false,
    }
}

/// How many estimates belong to a group.
pub open spec fn group_size(estimates: Seq<ProbabilityEstimate>, group: Seq<char>) -> nat
    decreases estimates.len(),
{
    if estimates.len() == 0 {
        0
    } else {
        group_size(estimates.drop_last(), group) + if in_group(estimates.last(), group) {
            1nat
        } else {
            0nat
        }
    }
}

/// Whether any estimate belongs to a group.
pub open spec fn has_group(estimates: Seq<ProbabilityEstimate>, group: Seq<char>) -> bool {
    exists|i: int| 0 <= i < estimates.len() && in_group(#[trigger] estimates[i], group)
}

/// The divisor by which a group of `k` is cut: `1 + (k - 1) * correlation`.
pub open spec fn haircut(c: &Arithmetic, k: Double, config: AggregatorConfig) -> Double {
    c.plus(
        Double::from_bits(ONE),
        c.times(c.minus(k, Double::from_bits(ONE)), config.assumed_correlation),
    )
}

/// The standard deviation of an estimate, floored and widened with age.
pub open spec fn aged_std(
    c: &Arithmetic,
    e: ProbabilityEstimate,
    as_of: Timestamp,
    config: AggregatorConfig,
) -> Double {
    let floored = e.std_dev.larger(config.min_std_dev);
    match e.staleness {
        StalenessPolicy::Permanent => floored,
        StalenessPolicy::Decays => {
            let age = as_of.age(e.as_of);
            let age_ns = c.of_count(
                if age > 0 {
                    age as u64
                } else {
                    0
                },
            );
            let decay = c.power(
                Double::from_bits(HALF),
                c.over(age_ns, c.of_signed(config.staleness_half_life_ns)),
            );
            c.over(floored, decay.larger(Double::from_bits(DECAY_FLOOR)))
        },
    }
}

/// The weight of an estimate: its inverse variance, cut for the company it keeps.
pub open spec fn weight(
    c: &Arithmetic,
    e: ProbabilityEstimate,
    as_of: Timestamp,
    config: AggregatorConfig,
    all: Seq<ProbabilityEstimate>,
) -> Double {
    let std = aged_std(c, e, as_of, config);
    let w = c.over(Double::from_bits(ONE), c.times(std, std));
    match e.correlation_group {
        Some(g) => {
            let k = c.of_count(group_size(all, g@) as u64);
            if k.gt(Double::from_bits(ONE)) {
                c.over(w, haircut(c, k, config))
            } else {
                w
            }
        },
        None => w,
    }
}

/// The sum of the weights, and the weighted sum of the probabilities.
pub open spec fn pool(
    c: &Arithmetic,
    estimates: Seq<ProbabilityEstimate>,
    as_of: Timestamp,
    config: AggregatorConfig,
    all: Seq<ProbabilityEstimate>,
) -> (Double, Double)
    decreases estimates.len(),
{
    if estimates.len() == 0 {
        (Double::from_bits(ZERO), Double::from_bits(ZERO))
    } else {
        let (weights, sum) = pool(c, estimates.drop_last(), as_of, config, all);
        let w = weight(c, estimates.last(), as_of, config, all);
        (c.plus(weights, w), c.plus(sum, c.times(w, estimates.last().probability)))
    }
}

/// The weighted sum of the squared distances from `mid`.
pub open spec fn dispersion(
    c: &Arithmetic,
    estimates: Seq<ProbabilityEstimate>,
    mid: Double,
    as_of: Timestamp,
    config: AggregatorConfig,
    all: Seq<ProbabilityEstimate>,
) -> Double
    decreases estimates.len(),
{
    if estimates.len() == 0 {
        Double::from_bits(ZERO)
    } else {
        let e = estimates.last();
        c.plus(
            dispersion(c, estimates.drop_last(), mid, as_of, config, all),
            c.times(
                weight(c, e, as_of, config, all),
                c.integer_power(c.minus(e.probability, mid), 2),
            ),
        )
    }
}

/// How many independent sources the estimates amount to: one for each ungrouped estimate,
/// `k / (1 + (k - 1) * correlation)` for each group.
pub open spec fn sample_size(
    c: &Arithmetic,
    estimates: Seq<ProbabilityEstimate>,
    config: AggregatorConfig,
    all: Seq<ProbabilityEstimate>,
) -> Double
    decreases estimates.len(),
{
    if estimates.len() == 0 {
        Double::from_bits(ZERO)
    } else {
        let before = sample_size(c, estimates.drop_last(), config, all);
        match estimates.last().correlation_group {
            None => c.plus(before, Double::from_bits(ONE)),
            Some(g) => if has_group(estimates.drop_last(), g@) {
                before
            } else {
                let k = c.of_count(group_size(all, g@) as u64);
                c.plus(before, c.over(k, haircut(c, k, config)))
            },
        }
    }
}

/// The variance of the pool: that of independent estimates, or the weighted variance of what they
/// say where they disagree by more.
pub open spec fn pooled_variance(c: &Arithmetic, weights: Double, spread: Double) -> Double {
    c.over(Double::from_bits(ONE), weights).larger(c.over(spread, weights))
}

/// Midpoint and half-width of the band, from the pools of absolute estimates and of shifts.
pub open spec fn combined(
    c: &Arithmetic,
    weights: Double,
    sum: Double,
    spread: Double,
    shift_weights: Double,
    shift_sum: Double,
    config: AggregatorConfig,
) -> (Double, Double) {
    let zero = Double::from_bits(ZERO);
    let one = Double::from_bits(ONE);
    let base = c.over(sum, weights);
    let variance = pooled_variance(c, weights, spread);
    let shifted = shift_weights.gt(zero);
    let shift = if shifted {
        c.over(shift_sum, shift_weights)
    } else {
        zero
    };
    let shift_variance = if shifted {
        c.over(one, shift_weights)
    } else {
        zero
    };
    let held = stats::clamp_probability(base.clamp(zero, one));
    let logit = c.plus(c.ln(c.over(held, c.minus(one, held))), shift);
    let midpoint = stats::clamp_probability(c.over(one, c.plus(one, c.exp(logit.neg()))));
    let swing = c.integer_power(c.times(midpoint, c.minus(one, midpoint)), 2);
    let total = c.plus(variance, c.times(swing, shift_variance));
    (midpoint, c.times(config.band_z_score, c.sqrt(total)).larger(config.min_band_half_width))
}

/// What aggregating gives: midpoint, lower and upper end of the band, and sample size.
pub struct Aggregated {
    pub midpoint: Double,
    pub band_low: Double,
    pub band_high: Double,
    pub effective_sample_size: Double,
}

/// The fair value of estimates that are all for one contract and of which one at least is
/// absolute.
pub open spec fn aggregated(
    c: &Arithmetic,
    all: Seq<ProbabilityEstimate>,
    config: AggregatorConfig,
    as_of: Timestamp,
) -> Aggregated {
    let absolutes = of_kind(all, EstimateKind::Absolute);
    let shifts = of_kind(all, EstimateKind::LogOddsShift);
    let (weights, sum) = pool(c, absolutes, as_of, config, all);
    let spread = dispersion(c, absolutes, c.over(sum, weights), as_of, config, all);
    let (shift_weights, shift_sum) = pool(c, shifts, as_of, config, all);
    let (midpoint, half_width) = combined(
        c,
        weights,
        sum,
        spread,
        shift_weights,
        shift_sum,
        config,
    );
    Aggregated {
        midpoint,
        band_low: c.minus(midpoint, half_width).clamp(
            Double::from_bits(ZERO),
            Double::from_bits(ONE),
        ),
        band_high: c.plus(midpoint, half_width).clamp(
            Double::from_bits(ZERO),
            Double::from_bits(ONE),
        ),
        effective_sample_size: sample_size(c, absolutes, config, all),
    }
}

fn belongs(e: &ProbabilityEstimate, group: &String) -> (r: bool)
    ensures
        r == in_group(*e, group@),
{
    match &e.correlation_group {
        Some(g) => *g == *group,
        None => false,
    }
}

fn count_group(estimates: &Vec<ProbabilityEstimate>, group: &String) -> (r: u64)
    ensures
        r == group_size(estimates@, group@),
{
    let mut n: u64 = 0;
    let mut i: usize = 0;
    while i < estimates.len()
        invariant
            i <= estimates.len(),
            n == group_size(estimates@.take(i as int), group@),
            n <= i,
        decreases estimates.len() - i,
    {
        assert(estimates@.take(i + 1).drop_last() == estimates@.take(i as int));
        if belongs(&estimates[i], group) {
            n += 1;
        }
        i += 1;
    }
    assert(estimates@.take(i as int) == estimates@);
    n
}

/// The weight of one estimate among `all` the estimates for its contract.
fn effective_weight(
    c: &Arithmetic,
    e: &ProbabilityEstimate,
    as_of: Timestamp,
    config: &AggregatorConfig,
    all: &Vec<ProbabilityEstimate>,
) -> (r: Double)
    ensures
        r == weight(c, *e, as_of, *config, all@),
{
    let one = Double::from_bits(ONE);
    let floored = e.std_dev.larger(config.min_std_dev);
    let std = match e.staleness {
        StalenessPolicy::Permanent => floored,
        StalenessPolicy::Decays => {
            let age: i64 = as_of.since(e.as_of);
            let age_ns = c.of_count(
                if age > 0 {
                    age as u64
                } else {
                    0
                },
            );
            let decay = c.power(
                Double::from_bits(HALF),
                c.over(age_ns, c.of_signed(config.staleness_half_life_ns)),
            );
            c.over(floored, decay.larger(Double::from_bits(DECAY_FLOOR)))
        },
    };
    let w = c.over(one, c.times(std, std));
    match &e.correlation_group {
        Some(g) => {
            let k = c.of_count(count_group(all, g));
            if k.gt(one) {
                c.over(w, cut(c, k, config))
            } else {
                w
            }
        },
        None => w,
    }
}

fn cut(c: &Arithmetic, k: Double, config: &AggregatorConfig) -> (r: Double)
    ensures
        r == haircut(c, k, *config),
{
    let one = Double::from_bits(ONE);
    c.plus(one, c.times(c.minus(k, one), config.assumed_correlation))
}

fn pick_usable(estimates: &[ProbabilityEstimate], contract: &CanonicalContractId) -> (r: Vec<
    ProbabilityEstimate,
>)
    ensures
        r@ == usable(estimates@, contract@),
{
    let mut out: Vec<ProbabilityEstimate> = Vec::new();
    let mut i: usize = 0;
    reveal(Seq::filter);
    while i < estimates.len()
        invariant
            i <= estimates.len(),
            out@ == usable(estimates@.take(i as int), contract@),
        decreases estimates.len() - i,
    {
        reveal(Seq::filter);
        assert(estimates@.take(i + 1).drop_last() == estimates@.take(i as int));
        if estimates[i].contract.same(contract) {
            out.push(estimates[i].clone());
        }
        i += 1;
    }
    assert(estimates@.take(i as int) == estimates@);
    out
}

fn pick_kind(estimates: &Vec<ProbabilityEstimate>, kind: EstimateKind) -> (r: Vec<
    ProbabilityEstimate,
>)
    ensures
        r@ == of_kind(estimates@, kind),
{
    let mut out: Vec<ProbabilityEstimate> = Vec::new();
    let mut i: usize = 0;
    reveal(Seq::filter);
    while i < estimates.len()
        invariant
            i <= estimates.len(),
            out@ == of_kind(estimates@.take(i as int), kind),
        decreases estimates.len() - i,
    {
        reveal(Seq::filter);
        assert(estimates@.take(i + 1).drop_last() == estimates@.take(i as int));
        if estimates[i].kind == kind {
            out.push(estimates[i].clone());
        }
        i += 1;
    }
    assert(estimates@.take(i as int) == estimates@);
    out
}

fn pool_up(
    c: &Arithmetic,
    estimates: &Vec<ProbabilityEstimate>,
    as_of: Timestamp,
    config: &AggregatorConfig,
    all: &Vec<ProbabilityEstimate>,
) -> (r: (Double, Double))
    ensures
        r == pool(c, estimates@, as_of, *config, all@),
{
    let mut weights = Double::from_bits(ZERO);
    let mut sum = Double::from_bits(ZERO);
    let mut i: usize = 0;
    while i < estimates.len()
        invariant
            i <= estimates.len(),
            (weights, sum) == pool(c, estimates@.take(i as int), as_of, *config, all@),
        decreases estimates.len() - i,
    {
        assert(estimates@.take(i + 1).drop_last() == estimates@.take(i as int));
        let w = effective_weight(c, &estimates[i], as_of, config, all);
        weights = c.plus(weights, w);
        sum = c.plus(sum, c.times(w, estimates[i].probability));
        i += 1;
    }
    assert(estimates@.take(i as int) == estimates@);
    (weights, sum)
}

fn spread_of(
    c: &Arithmetic,
    estimates: &Vec<ProbabilityEstimate>,
    mid: Double,
    as_of: Timestamp,
    config: &AggregatorConfig,
    all: &Vec<ProbabilityEstimate>,
) -> (r: Double)
    ensures
        r == dispersion(c, estimates@, mid, as_of, *config, all@),
{
    let mut sum = Double::from_bits(ZERO);
    let mut i: usize = 0;
    while i < estimates.len()
        invariant
            i <= estimates.len(),
            sum == dispersion(c, estimates@.take(i as int), mid, as_of, *config, all@),
        decreases estimates.len() - i,
    {
        assert(estimates@.take(i + 1).drop_last() == estimates@.take(i as int));
        let w = effective_weight(c, &estimates[i], as_of, config, all);
        sum =
        c.plus(sum, c.times(w, c.integer_power(c.minus(estimates[i].probability, mid), 2)));
        i += 1;
    }
    assert(estimates@.take(i as int) == estimates@);
    sum
}

fn seen_before(estimates: &Vec<ProbabilityEstimate>, len: usize, group: &String) -> (r: bool)
    requires
        len <= estimates.len(),
    ensures
        r == has_group(estimates@.take(len as int), group@),
{
    let mut i: usize = 0;
    while i < len
        invariant
            i <= len <= estimates.len(),
            forall|j: int| 0 <= j < i ==> !in_group(#[trigger] estimates@[j], group@),
        decreases len - i,
    {
        if belongs(&estimates[i], group) {
            assert(in_group(estimates@.take(len as int)[i as int], group@));
            return true;
        }
        i += 1;
    }
    false
}

fn count_samples(
    c: &Arithmetic,
    estimates: &Vec<ProbabilityEstimate>,
    config: &AggregatorConfig,
    all: &Vec<ProbabilityEstimate>,
) -> (r: Double)
    ensures
        r == sample_size(c, estimates@, *config, all@),
{
    let mut n = Double::from_bits(ZERO);
    let mut i: usize = 0;
    while i < estimates.len()
        invariant
            i <= estimates.len(),
            n == sample_size(c, estimates@.take(i as int), *config, all@),
        decreases estimates.len() - i,
    {
        assert(estimates@.take(i + 1).drop_last() == estimates@.take(i as int));
        match &estimates[i].correlation_group {
            None => {
                n = c.plus(n, Double::from_bits(ONE));
            },
            Some(g) => {
                if !seen_before(estimates, i, g) {
                    let k = c.of_count(count_group(all, g));
                    n = c.plus(n, c.over(k, cut(c, k, config)));
                }
            },
        }
        i += 1;
    }
    assert(estimates@.take(i as int) == estimates@);
    n
}

fn combine(
    c: &Arithmetic,
    weights: Double,
    sum: Double,
    spread: Double,
    shift_weights: Double,
    shift_sum: Double,
    config: &AggregatorConfig,
) -> (r: (Double, Double))
    ensures
        r == combined(c, weights, sum, spread, shift_weights, shift_sum, *config),
{
    let zero = Double::from_bits(ZERO);
    let one = Double::from_bits(ONE);
    let base = c.over(sum, weights);
    let variance = c.over(one, weights).larger(c.over(spread, weights));
    let shifted = shift_weights.gt(zero);
    let shift = if shifted {
        c.over(shift_sum, shift_weights)
    } else {
        zero
    };
    let shift_variance = if shifted {
        c.over(one, shift_weights)
    } else {
        zero
    };
    let held = stats::clamp_probability(base.clamp(zero, one));
    let logit = c.plus(c.ln(c.over(held, c.minus(one, held))), shift);
    let midpoint = stats::clamp_probability(c.over(one, c.plus(one, c.exp(logit.neg()))));
    let swing = c.integer_power(c.times(midpoint, c.minus(one, midpoint)), 2);
    let total = c.plus(variance, c.times(swing, shift_variance));
    (midpoint, c.times(config.band_z_score, c.sqrt(total)).larger(config.min_band_half_width))
}

/// Whether there is anything to combine: an absolute estimate for the contract.
pub open spec fn has_opinion(estimates: Seq<ProbabilityEstimate>, contract: Seq<char>) -> bool {
    of_kind(usable(estimates, contract), EstimateKind::Absolute).len() > 0
}

/// The fair value of the estimates for the contract.
pub open spec fn fair_view(
    c: &Arithmetic,
    contract: CanonicalContractId,
    estimates: Seq<ProbabilityEstimate>,
    config: AggregatorConfig,
    as_of: Timestamp,
) -> FairView {
    let all = usable(estimates, contract@);
    let a = aggregated(c, all, config, as_of);
    FairView {
        contract,
        midpoint: a.midpoint,
        band_low: a.band_low,
        band_high: a.band_high,
        as_of,
        inputs: all,
        effective_sample_size: a.effective_sample_size,
    }
}

/// Combines the opinions on one contract into a fair value whose band widens with
/// disagreement, with age and with a small effective sample. Estimates for another contract
/// are dropped. A shift alone is no opinion: there must be an absolute estimate to shift.
pub fn aggregate(
    c: &Arithmetic,
    contract: &CanonicalContractId,
    estimates: &[ProbabilityEstimate],
    config: &AggregatorConfig,
    as_of: Timestamp,
) -> (r: Option<FairValue>)
    ensures
        r is Some <==> has_opinion(estimates@, contract@),
        r matches Some(fv) ==> fv@ == fair_view(c, *contract, estimates@, *config, as_of),
{
    let all = pick_usable(estimates, contract);
    if all.len() == 0 {
        assert(of_kind(all@, EstimateKind::Absolute).len() == 0) by {
            reveal(Seq::filter);
        }
        return None;
    }
    let absolutes = pick_kind(&all, EstimateKind::Absolute);
    let shifts = pick_kind(&all, EstimateKind::LogOddsShift);
    if absolutes.len() == 0 {
        return None;
    }
    let (weights, sum) = pool_up(c, &absolutes, as_of, config, &all);
    let base = c.over(sum, weights);
    let spread = spread_of(c, &absolutes, base, as_of, config, &all);
    let effective_sample_size = count_samples(c, &absolutes, config, &all);
    let (shift_weights, shift_sum) = pool_up(c, &shifts, as_of, config, &all);
    let (midpoint, half_width) = combine(
        c,
        weights,
        sum,
        spread,
        shift_weights,
        shift_sum,
        config,
    );
    let zero = Double::from_bits(ZERO);
    let one = Double::from_bits(ONE);
    let band_low = c.minus(midpoint, half_width).clamp(zero, one);
    let band_high = c.plus(midpoint, half_width).clamp(zero, one);
    Some(
        FairValue {
            contract: contract.clone(),
            midpoint,
            band_low,
            band_high,
            as_of,
            inputs: all,
            effective_sample_size,
        },
    )
}

/// `aggregate` with an error in place of `None`.
pub fn try_aggregate(
    c: &Arithmetic,
    contract: &CanonicalContractId,
    estimates: &[ProbabilityEstimate],
    config: &AggregatorConfig,
    as_of: Timestamp,
) -> (r: Result<FairValue, AggregateError>)
    ensures
        match r {
            Ok(fv) => has_opinion(estimates@, contract@) && fv@ == fair_view(
                c,
                *contract,
                estimates@,
                *config,
                as_of,
            ),
            Err(e) => !has_opinion(estimates@, contract@) && e
                == AggregateError::NoUsableEstimates,
        },
{
    match aggregate(c, contract, estimates, config, as_of) {
        Some(fv) => Ok(fv),
        None => Err(AggregateError::NoUsableEstimates),
    }
}

/// An estimate for another contract does not count, wherever it stands.
pub proof fn law_other_contracts_are_dropped(
    before: Seq<ProbabilityEstimate>,
    stray: ProbabilityEstimate,
    after: Seq<ProbabilityEstimate>,
    contract: Seq<char>,
)
    requires
        stray.contract@ != contract,
    ensures
        usable(before.push(stray) + after, contract) == usable(before + after, contract),
{
    let p = |e: ProbabilityEstimate| e.contract@ == contract;
    Seq::filter_distributes_over_add(before.push(stray), after, p);
    Seq::filter_distributes_over_add(before, after, p);
    assert(before.push(stray).drop_last() == before);
    reveal(Seq::filter);
    assert(before.push(stray).filter(p) == before.filter(p));
}

/// What is settled does not lose weight with age: only the company that an estimate keeps can
/// change the weight of a permanent one.
pub proof fn law_settled_estimate_does_not_age(
    c: &Arithmetic,
    e: ProbabilityEstimate,
    early: Timestamp,
    late: Timestamp,
    config: AggregatorConfig,
    all: Seq<ProbabilityEstimate>,
)
    requires
        e.staleness == StalenessPolicy::Permanent,
    ensures
        weight(c, e, early, config, all) == weight(c, e, late, config, all),
{
}

proof fn lemma_pool_of_zero_shifts(
    c: &Arithmetic,
    shifts: Seq<ProbabilityEstimate>,
    as_of: Timestamp,
    config: AggregatorConfig,
    all: Seq<ProbabilityEstimate>,
)
    requires
        c.is_ieee(),
        forall|i: int|
            0 <= i < shifts.len() ==> (#[trigger] shifts[i]).probability.is_zero() && weight(
                c,
                shifts[i],
                as_of,
                config,
                all,
            ).is_finite(),
    ensures
        pool(c, shifts, as_of, config, all).1.is_zero(),
    decreases shifts.len(),
{
    if shifts.len() > 0 {
        let rest = shifts.drop_last();
        assert forall|i: int| 0 <= i < rest.len() implies (
        #[trigger] rest[i]).probability.is_zero() && weight(
            c,
            rest[i],
            as_of,
            config,
            all,
        ).is_finite() by {
            assert(rest[i] == shifts[i]);
        }
        lemma_pool_of_zero_shifts(c, rest, as_of, config, all);
        let e = shifts[shifts.len() - 1];
        assert(shifts.last() == e);
        let w = weight(c, e, as_of, config, all);
        assert(c.times(w, e.probability).is_zero());
    }
}

proof fn lemma_zero_shift_keeps_the_midpoint(
    c: &Arithmetic,
    weights: Double,
    sum: Double,
    spread: Double,
    shifts: Seq<ProbabilityEstimate>,
    all: Seq<ProbabilityEstimate>,
    config: AggregatorConfig,
    as_of: Timestamp,
)
    requires
        c.is_ieee(),
        forall|i: int|
            0 <= i < shifts.len() ==> (#[trigger] shifts[i]).probability.is_zero() && weight(
                c,
                shifts[i],
                as_of,
                config,
                all,
            ).is_finite(),
        !c.ln(
            ({
                let held = stats::clamp_probability(
                    c.over(sum, weights).clamp(Double::from_bits(ZERO), Double::from_bits(ONE)),
                );
                c.over(held, c.minus(Double::from_bits(ONE), held))
            }),
        ).is_nan(),
    ensures
        ({
            let (shift_weights, shift_sum) = pool(c, shifts, as_of, config, all);
            let zero = Double::from_bits(ZERO);
            combined(c, weights, sum, spread, shift_weights, shift_sum, config).0 == combined(
                c,
                weights,
                sum,
                spread,
                zero,
                zero,
                config,
            ).0
        }),
{
    lemma_pool_of_zero_shifts(c, shifts, as_of, config, all);
    let (shift_weights, shift_sum) = pool(c, shifts, as_of, config, all);
    let zero = Double::from_bits(ZERO);
    let one = Double::from_bits(ONE);
    let held = stats::clamp_probability(c.over(sum, weights).clamp(zero, one));
    let logit = c.ln(c.over(held, c.minus(one, held)));
    let shift = if shift_weights.gt(zero) {
        c.over(shift_sum, shift_weights)
    } else {
        zero
    };
    assert(shift.is_zero());
    let a = c.plus(logit, shift);
    let b = c.plus(logit, zero);
    if logit.is_zero() {
        assert(a.is_zero() && b.is_zero());
        assert(a.neg().is_zero() && b.neg().is_zero());
        assert(c.exp(a.neg()) == c.exp(b.neg()));
    } else {
        assert(a == b);
    }
}

proof fn lemma_group_size_of_ungrouped(
    all: Seq<ProbabilityEstimate>,
    e: ProbabilityEstimate,
    group: Seq<char>,
)
    requires
        e.correlation_group is None,
    ensures
        group_size(all.push(e), group) == group_size(all, group),
{
    assert(all.push(e).drop_last() =~= all);
}

proof fn lemma_weight_beside_ungrouped(
    c: &Arithmetic,
    e: ProbabilityEstimate,
    as_of: Timestamp,
    config: AggregatorConfig,
    all: Seq<ProbabilityEstimate>,
    other: ProbabilityEstimate,
)
    requires
        other.correlation_group is None,
    ensures
        weight(c, e, as_of, config, all.push(other)) == weight(c, e, as_of, config, all),
{
    if let Some(g) = e.correlation_group {
        lemma_group_size_of_ungrouped(all, other, g@);
    }
}

proof fn lemma_pool_beside_ungrouped(
    c: &Arithmetic,
    estimates: Seq<ProbabilityEstimate>,
    mid: Double,
    as_of: Timestamp,
    config: AggregatorConfig,
    all: Seq<ProbabilityEstimate>,
    other: ProbabilityEstimate,
)
    requires
        other.correlation_group is None,
    ensures
        pool(c, estimates, as_of, config, all.push(other)) == pool(
            c,
            estimates,
            as_of,
            config,
            all,
        ),
        dispersion(c, estimates, mid, as_of, config, all.push(other)) == dispersion(
            c,
            estimates,
            mid,
            as_of,
            config,
            all,
        ),
    decreases estimates.len(),
{
    if estimates.len() > 0 {
        lemma_pool_beside_ungrouped(c, estimates.drop_last(), mid, as_of, config, all, other);
        lemma_weight_beside_ungrouped(c, estimates.last(), as_of, config, all, other);
    }
}

proof fn lemma_picked_with_one_more(
    base: Seq<ProbabilityEstimate>,
    contract: Seq<char>,
    shift: ProbabilityEstimate,
)
    requires
        shift.contract@ == contract,
        shift.kind == EstimateKind::LogOddsShift,
    ensures
        ({
            let all = usable(base, contract);
            let more = usable(base.push(shift), contract);
            &&& more == all.push(shift)
            &&& of_kind(more, EstimateKind::Absolute) == of_kind(all, EstimateKind::Absolute)
            &&& of_kind(more, EstimateKind::LogOddsShift) == of_kind(
                all,
                EstimateKind::LogOddsShift,
            ).push(shift)
        }),
{
    reveal(Seq::filter);
    let all = usable(base, contract);
    assert(base.push(shift).drop_last() =~= base);
    assert(usable(base.push(shift), contract) == all.push(shift));
    assert(all.push(shift).drop_last() =~= all);
}

proof fn lemma_swing(c: &Arithmetic, mid: Double)
    requires
        c.is_ieee(),
        c.keeps_order(),
        c.rounds(),
        c.has_functions(),
        mid == stats::clamp_probability(mid),
        !mid.is_nan(),
    ensures
        ({
            let swing = c.integer_power(c.times(mid, c.minus(Double::from_bits(ONE), mid)), 2);
            swing.gt(Double::from_bits(ZERO)) && swing.is_finite()
        }),
{
    reveal(Arithmetic::parts_neighbours);
    reveal(Arithmetic::rounds_products);
    reveal(Arithmetic::multiplies_powers);
    reveal(Arithmetic::has_functions);
    let zero = Double::from_bits(ZERO);
    let one = Double::from_bits(ONE);
    law_powers_are_ordered(-53, -14);
    law_powers_are_ordered(-134, -67);
    let rest = c.minus(one, mid);
    assert(two_to(-14).le(mid) && mid.lt(one));
    assert(two_to(-53).le(rest) && rest.le(one));
    let x = c.times(mid, rest);
    assert(c.times(two_to(-14), two_to(-53)) == two_to(-67));
    assert(c.times(mid, one) == mid);
    assert(zero.le(x));
    assert(two_to(-67).le(x) && x.le(mid));
    assert(c.times(two_to(-67), two_to(-67)) == two_to(-134));
    assert(two_to(-134).le(c.times(x, x)));
}

proof fn lemma_half_width_grows(
    c: &Arithmetic,
    weights: Double,
    sum: Double,
    spread: Double,
    shift_weights: Double,
    shift_sum: Double,
    config: AggregatorConfig,
)
    requires
        c.is_ieee(),
        c.keeps_order(),
        c.rounds(),
        c.has_functions(),
        !config.band_z_score.lt(Double::from_bits(ZERO)),
        config.min_band_half_width.ge(Double::from_bits(ZERO)),
        ({
            let zero = Double::from_bits(ZERO);
            let plain = combined(c, weights, sum, spread, zero, zero, config);
            let shifted = combined(c, weights, sum, spread, shift_weights, shift_sum, config);
            plain.0 == shifted.0 && !plain.0.is_nan()
        }),
    ensures
        ({
            let zero = Double::from_bits(ZERO);
            let plain = combined(c, weights, sum, spread, zero, zero, config);
            let shifted = combined(c, weights, sum, spread, shift_weights, shift_sum, config);
            zero.le(plain.1) && plain.1.le(shifted.1)
        }),
{
    let zero = Double::from_bits(ZERO);
    let one = Double::from_bits(ONE);
    let z = config.band_z_score;
    let floor = config.min_band_half_width;
    let (mid, plain) = combined(c, weights, sum, spread, zero, zero, config);
    let (_, wide) = combined(c, weights, sum, spread, shift_weights, shift_sum, config);
    let variance = pooled_variance(c, weights, spread);
    lemma_swing(c, mid);
    let swing = c.integer_power(c.times(mid, c.minus(one, mid)), 2);
    // Without a shift it adds nothing, and with one something that is not negative.
    let none = c.times(swing, zero);
    assert(none.is_zero());
    let shift_variance = if shift_weights.gt(zero) {
        c.over(one, shift_weights)
    } else {
        zero
    };
    let added = c.times(swing, shift_variance);
    assert(zero.le(added));
    let before = c.plus(variance, none);
    let after = c.plus(variance, added);
    let a = c.times(z, c.sqrt(before));
    let b = c.times(z, c.sqrt(after));
    assert(plain == a.larger(floor));
    assert(wide == b.larger(floor));
    if !a.is_nan() {
        assert(!z.is_nan() && !c.sqrt(before).is_nan());
        assert(zero.le(before));
        assert(!variance.is_nan());
        assert(zero.le(variance));
        assert(zero.le(after));
        assert(before.le(after));
        assert(c.sqrt(before).le(c.sqrt(after)));
        lemma_scaled_root(c, z, c.sqrt(before), c.sqrt(after), floor);
    }
}

proof fn lemma_scaled_root(c: &Arithmetic, z: Double, s: Double, t: Double, floor: Double)
    requires
        c.is_ieee(),
        c.keeps_order(),
        c.rounds(),
        Double::from_bits(ZERO).le(z),
        Double::from_bits(ZERO).le(s),
        s.le(t),
        floor.ge(Double::from_bits(ZERO)),
        !c.times(z, s).is_nan(),
    ensures
        c.times(z, s).larger(floor).le(c.times(z, t).larger(floor)),
        Double::from_bits(ZERO).le(c.times(z, s).larger(floor)),
{
    reveal(Arithmetic::rounds_products);
    let (a, b) = (c.times(z, s), c.times(z, t));
    if b.is_nan() {
        // Zero times an infinity, in one order or the other.
        if z.is_finite() {
            assert(z.is_zero() && !t.is_finite());
            assert(s.is_finite() ==> c.times(s, z).is_zero());
            assert(s.is_finite() ==> a.is_zero());
        } else {
            assert(t.is_finite() && !t.is_zero() ==> Double::from_bits(ZERO).le(c.times(t, z)));
            assert(!t.is_finite() ==> t == z && c.times(z, z).bits == b.bits);
            assert(t.is_zero());
        }
    } else {
        assert(a.le(b));
    }
}

/// A shift of zero is a no-op on the level: added to absolute estimates it leaves the midpoint
/// where they put it, to the bit, and the band is no narrower for it. The fair value must be a
/// number, the shift's weight finite (its variance must not vanish in rounding), and neither the
/// band's z-score nor the floor of the half-width negative.
pub proof fn law_zero_shift_is_a_no_op(
    c: &Arithmetic,
    contract: CanonicalContractId,
    base: Seq<ProbabilityEstimate>,
    shift: ProbabilityEstimate,
    config: AggregatorConfig,
    as_of: Timestamp,
)
    requires
        c.is_ieee(),
        c.keeps_order(),
        c.rounds(),
        c.has_functions(),
        has_opinion(base, contract@),
        of_kind(usable(base, contract@), EstimateKind::LogOddsShift).len() == 0,
        shift.contract@ == contract@,
        shift.kind == EstimateKind::LogOddsShift,
        shift.probability.is_zero(),
        shift.correlation_group is None,
        weight(c, shift, as_of, config, usable(base, contract@)).is_finite(),
        !fair_view(c, contract, base, config, as_of).midpoint.is_nan(),
        !config.band_z_score.lt(Double::from_bits(ZERO)),
        config.min_band_half_width.ge(Double::from_bits(ZERO)),
    ensures
        ({
            let before = fair_view(c, contract, base, config, as_of);
            let after = fair_view(c, contract, base.push(shift), config, as_of);
            &&& has_opinion(base.push(shift), contract@)
            &&& after.midpoint == before.midpoint
            &&& after.band_low.le(before.band_low)
            &&& before.band_high.le(after.band_high)
            &&& before.width(c).le(after.width(c))
        }),
{
    let zero = Double::from_bits(ZERO);
    let one = Double::from_bits(ONE);
    let all = usable(base, contract@);
    let more = all.push(shift);
    let absolutes = of_kind(all, EstimateKind::Absolute);
    let none = of_kind(all, EstimateKind::LogOddsShift);
    let shifts = seq![shift];
    lemma_picked_with_one_more(base, contract@, shift);
    assert(none.push(shift) =~= shifts);
    let (weights, sum) = pool(c, absolutes, as_of, config, all);
    let mid = c.over(sum, weights);
    lemma_pool_beside_ungrouped(c, absolutes, mid, as_of, config, all, shift);
    let spread = dispersion(c, absolutes, mid, as_of, config, all);
    lemma_weight_beside_ungrouped(c, shift, as_of, config, all, shift);
    let w = weight(c, shift, as_of, config, more);
    let (shift_weights, shift_sum) = pool(c, shifts, as_of, config, more);
    assert(shifts.drop_last() =~= Seq::<ProbabilityEstimate>::empty());
    reveal_with_fuel(pool, 2);
    assert(shift_weights == c.plus(zero, w));
    assert(shift_weights.gt(zero) ==> shift_weights == w);
    let before = fair_view(c, contract, base, config, as_of);
    let after = fair_view(c, contract, base.push(shift), config, as_of);
    let held = stats::clamp_probability(mid.clamp(zero, one));
    let logit = c.ln(c.over(held, c.minus(one, held)));
    let lifted = c.plus(logit, zero);
    assert(logit.is_nan() ==> lifted.is_nan());
    assert(lifted.is_nan() ==> lifted.neg().is_nan());
    assert(before.midpoint == stats::clamp_probability(
        c.over(one, c.plus(one, c.exp(lifted.neg()))),
    ));
    assert(!logit.is_nan());
    lemma_zero_shift_keeps_the_midpoint(c, weights, sum, spread, shifts, more, config, as_of);
    lemma_half_width_grows(c, weights, sum, spread, shift_weights, shift_sum, config);
    let plain = combined(c, weights, sum, spread, zero, zero, config);
    let wide = combined(c, weights, sum, spread, shift_weights, shift_sum, config);
    let m = plain.0;
    assert(before.midpoint == m && after.midpoint == m);
    assert(m.is_finite());
    assert(c.minus(m, plain.1).le(m) && c.minus(m, wide.1).le(m));
    assert(m.le(c.plus(m, plain.1)) && m.le(c.plus(m, wide.1)));
    assert(c.minus(m, wide.1).le(c.minus(m, plain.1)));
    assert(c.plus(m, plain.1).le(c.plus(m, wide.1)));
    assert(zero.le(before.band_low) && zero.le(after.band_low));
    assert(before.band_high.le(one) && after.band_high.le(one));
    assert(after.band_low.le(before.band_low));
    assert(before.band_high.le(after.band_high));
    assert(c.minus(before.band_high, before.band_low).le(
        c.minus(after.band_high, before.band_low),
    ));
    assert(c.minus(after.band_high, before.band_low).le(c.minus(after.band_high, after.band_low)));
}

} // verus!
