//! The distribution of results over noise: one run is no evidence of an edge.
use vstd::prelude::*;
use vstd::relations;
use vstd::seq_lib;
use crate::alpha::stats;
use crate::cli::demo;
use crate::cli::demo::Quote;
use crate::double::{Arithmetic, Double, ONE, ZERO};
use crate::rounding::{
    gap, law_exact_orders, law_powers_are_ordered, lemma_cancel, lemma_exact_power,
    lemma_quotient_near, lemma_size, lemma_sum_near, two_to, unit,
};
use crate::sim::report::BacktestReport;
use rand::Rng;
use rand::SeedableRng;
use rand_pcg::Pcg64;

verus! {

/// How far a member's forecast may be moved, in tenths of a degree.
pub const ENSEMBLE_JITTER_TENTHS: i32 = 15;

/// 0.02: how far a side of a quote may be moved.
pub const QUOTE_JITTER: u64 = 0x3F94_7AE1_47AE_147B;

/// 0.5: the largest share of a queue that may stand ahead of an order.
pub const MAX_QUEUE_AHEAD_FRACTION: u64 = 0x3FE0_0000_0000_0000;

/// 0.01
pub const LOWEST_BID: u64 = 0x3F84_7AE1_47AE_147B;

/// 0.98
pub const HIGHEST_BID: u64 = 0x3FEF_5C28_F5C2_8F5C;

/// 0.02
pub const LOWEST_ASK: u64 = 0x3F94_7AE1_47AE_147B;

/// 0.99
pub const HIGHEST_ASK: u64 = 0x3FEF_AE14_7AE1_47AE;

/// 0.01
pub const LEAST_SPREAD: u64 = 0x3F84_7AE1_47AE_147B;

/// 100.0
pub const HUNDRED: u64 = 0x4059_0000_0000_0000;

/// 50.0
pub const FIFTY: u64 = 0x4049_0000_0000_0000;

/// The first five numbers that `rand_pcg::Pcg64`, seeded with `seed`, draws by `gen_range` from
/// `-bound ..= bound`.
pub uninterp spec fn jitters(seed: u64, bound: i32) -> Seq<i32>;

/// `Rng::gen_range` on a `Pcg64` from `SeedableRng::seed_from_u64`, five times over: each number
/// lies within the range, and seed and bound alone decide which ones they are. It panics for an
/// empty range.
#[verifier::external_body]
fn draw_jitters(seed: u64, bound: i32) -> (r: [i32; 5])
    requires
        bound >= 0,
    ensures
        r@ == jitters(seed, bound),
        forall|i: int| 0 <= i < 5 ==> -bound <= #[trigger] r@[i] <= bound,
{
    let mut rng = Pcg64::seed_from_u64(seed);
    [
        rng.gen_range(-bound..=bound),
        rng.gen_range(-bound..=bound),
        rng.gen_range(-bound..=bound),
        rng.gen_range(-bound..=bound),
        rng.gen_range(-bound..=bound),
    ]
}

/// The scenario's forecasts, each moved by its jitter.
pub open spec fn moved_forecasts(jitters: Seq<i32>) -> Seq<i64> {
    Seq::new(5, |i: int| (demo::base_forecasts()[i] + jitters[i]) as i64)
}

/// The scenario's forecasts, each moved by its jitter.
pub fn apply_jitters(jitters: &[i32; 5]) -> (r: Vec<i64>)
    ensures
        r@ == moved_forecasts(jitters@),
{
    let mut out: Vec<i64> = Vec::new();
    out.push(920 + jitters[0] as i64);
    out.push(930 + jitters[1] as i64);
    out.push(915 + jitters[2] as i64);
    out.push(925 + jitters[3] as i64);
    out.push(918 + jitters[4] as i64);
    assert(out@ =~= moved_forecasts(jitters@));
    out
}

/// The forecasts of the run with the given seed.
pub fn draw_ensemble(seed: u64) -> (r: Vec<i64>)
    ensures
        r@ == moved_forecasts(jitters(seed, ENSEMBLE_JITTER_TENTHS)),
        r.len() == 5,
        forall|i: int|
            0 <= i < 5 ==> demo::base_forecasts()[i] - 15 <= #[trigger] r[i]
                <= demo::base_forecasts()[i] + 15,
{
    let noise = draw_jitters(seed, ENSEMBLE_JITTER_TENTHS);
    let r = apply_jitters(&noise);
    assert forall|i: int| 0 <= i < 5 implies demo::base_forecasts()[i] - 15 <= #[trigger] r[i]
        <= demo::base_forecasts()[i] + 15 by {
        assert(-15 <= noise@[i] <= 15);
    }
    r
}

/// A quote with its sides moved, within bounds. Where they would cross, the ask is put above
/// the bid: a crossed book is no book, and to drop it would bias the sample.
pub open spec fn jittered(
    c: &Arithmetic,
    base: Quote,
    bid_noise: Double,
    ask_noise: Double,
) -> Quote {
    let bid = c.plus(base.bid, bid_noise).clamp(
        Double::from_bits(LOWEST_BID),
        Double::from_bits(HIGHEST_BID),
    );
    let ask = c.plus(base.ask, ask_noise).clamp(
        Double::from_bits(LOWEST_ASK),
        Double::from_bits(HIGHEST_ASK),
    );
    if ask.le(bid) {
        Quote {
            bid,
            ask: c.plus(bid, Double::from_bits(LEAST_SPREAD)).smaller(
                Double::from_bits(HIGHEST_ASK),
            ),
        }
    } else {
        Quote { bid, ask }
    }
}

/// A quote with its sides moved by the given noise.
pub fn jitter_quote(c: &Arithmetic, base: Quote, bid_noise: Double, ask_noise: Double) -> (r: Quote)
    ensures
        r == jittered(c, base, bid_noise, ask_noise),
{
    let bid = c.plus(base.bid, bid_noise).clamp(
        Double::from_bits(LOWEST_BID),
        Double::from_bits(HIGHEST_BID),
    );
    let ask = c.plus(base.ask, ask_noise).clamp(
        Double::from_bits(LOWEST_ASK),
        Double::from_bits(HIGHEST_ASK),
    );
    if ask.le(bid) {
        Quote {
            bid,
            ask: c.plus(bid, Double::from_bits(LEAST_SPREAD)).smaller(
                Double::from_bits(HIGHEST_ASK),
            ),
        }
    } else {
        Quote { bid, ask }
    }
}

/// The net results of many runs.
#[derive(Debug)]
pub struct EdgeDistributionReport {
    /// The net result of each run that counts, in the order of the seeds.
    pub net_pnls: Vec<Double>,
    /// The seeds whose runs lost an acknowledgement: their results are no numbers.
    pub excluded_seeds: Vec<u64>,
}

/// The order of numbers that has a place for each of them.
pub open spec fn in_total_order(a: Double, b: Double) -> bool {
    a.total_rank() <= b.total_rank()
}

/// The numbers from the least to the greatest.
pub open spec fn sorted(xs: Seq<Double>) -> Seq<Double> {
    xs.sort_by(|a: Double, b: Double| in_total_order(a, b))
}

/// The element at an index, or the last one where the index is beyond it.
pub open spec fn element(xs: Seq<Double>, index: u64) -> Double {
    if index < xs.len() {
        xs[index as int]
    } else {
        xs.last()
    }
}

/// The percentile of a sample, by linear interpolation between the two nearest elements of the
/// sorted sample. None of an empty one: it counts as 0.
pub open spec fn percentile_of(c: &Arithmetic, xs: Seq<Double>, p: Double) -> Double {
    let s = sorted(xs);
    if xs.len() == 0 {
        Double::from_bits(ZERO)
    } else if xs.len() == 1 {
        xs[0]
    } else {
        let rank = c.times(
            c.over(
                p.clamp(Double::from_bits(ZERO), Double::from_bits(HUNDRED)),
                Double::from_bits(HUNDRED),
            ),
            c.of_count((xs.len() - 1) as u64),
        );
        let lo = c.to_index(c.floor(rank));
        let hi = c.to_index(c.ceil(rank));
        if lo == hi {
            element(s, lo)
        } else {
            c.plus(
                element(s, lo),
                c.times(
                    c.minus(element(s, hi), element(s, lo)),
                    c.minus(rank, c.of_count(lo)),
                ),
            )
        }
    }
}

/// The mean of a sample; 0 of an empty one.
pub open spec fn mean_of(c: &Arithmetic, xs: Seq<Double>) -> Double {
    if xs.len() == 0 {
        Double::from_bits(ZERO)
    } else {
        c.over(stats::total(c, xs), c.of_count(xs.len() as u64))
    }
}

/// How many of the results are positive.
pub open spec fn positive(xs: Seq<Double>) -> nat
    decreases xs.len(),
{
    if xs.len() == 0 {
        0
    } else {
        positive(xs.drop_last()) + if xs.last().gt(Double::from_bits(ZERO)) {
            1nat
        } else {
            0nat
        }
    }
}

proof fn lemma_total_order()
    ensures
        relations::total_ordering(|a: Double, b: Double| in_total_order(a, b)),
{
}

fn insert_sorted(xs: &mut Vec<Double>, x: Double)
    requires
        relations::sorted_by(old(xs)@, |a: Double, b: Double| in_total_order(a, b)),
    ensures
        relations::sorted_by(final(xs)@, |a: Double, b: Double| in_total_order(a, b)),
        final(xs)@.to_multiset() == old(xs)@.to_multiset().insert(x),
{
    let leq = Ghost(|a: Double, b: Double| in_total_order(a, b));
    let mut i: usize = 0;
    while i < xs.len() && !x.total_lt(xs[i])
        invariant
            i <= xs.len(),
            *xs == *old(xs),
            forall|j: int| 0 <= j < i ==> in_total_order(#[trigger] xs@[j], x),
        decreases xs.len() - i,
    {
        i += 1;
    }
    let ghost before = xs@;
    xs.insert(i, x);
    proof {
        broadcast use vstd::seq_lib::group_to_multiset_ensures;

        assert(xs@ == before.insert(i as int, x));
        assert forall|a: int, b: int| 0 <= a < b < xs@.len() implies #[trigger] leq@(
            xs@[a],
            xs@[b],
        ) by {
            if b < i {
                assert(leq@(before[a], before[b]));
            } else if b == i {
                assert(in_total_order(before[a], x));
            } else if a < i {
                assert(leq@(before[a], before[b - 1]));
            } else if a == i {
                if b - 1 > i {
                    assert(leq@(before[i as int], before[b - 1]));
                }
            } else {
                assert(leq@(before[a - 1], before[b - 1]));
            }
        }
    }
}

fn sort(xs: &Vec<Double>) -> (r: Vec<Double>)
    ensures
        r@ == sorted(xs@),
{
    let leq = Ghost(|a: Double, b: Double| in_total_order(a, b));
    let mut out: Vec<Double> = Vec::new();
    let mut i: usize = 0;
    proof {
        broadcast use vstd::seq_lib::group_to_multiset_ensures;

        assert(xs@.take(0).to_multiset() =~= out@.to_multiset());
    }
    while i < xs.len()
        invariant
            i <= xs.len(),
            relations::sorted_by(out@, |a: Double, b: Double| in_total_order(a, b)),
            out@.to_multiset() == xs@.take(i as int).to_multiset(),
        decreases xs.len() - i,
    {
        proof {
            broadcast use vstd::seq_lib::group_to_multiset_ensures;

            assert(xs@.take(i + 1) =~= xs@.take(i as int).push(xs@[i as int]));
        }
        insert_sorted(&mut out, xs[i]);
        i += 1;
    }
    assert(xs@.take(i as int) =~= xs@);
    proof {
        lemma_total_order();
        xs@.lemma_sort_by_ensures(|a: Double, b: Double| in_total_order(a, b));
        seq_lib::lemma_sorted_unique(
            out@,
            sorted(xs@),
            |a: Double, b: Double| in_total_order(a, b),
        );
    }
    out
}

fn element_at(xs: &Vec<Double>, index: u64) -> (r: Double)
    requires
        xs.len() > 0,
    ensures
        r == element(xs@, index),
{
    if index < xs.len() as u64 {
        xs[index as usize]
    } else {
        xs[xs.len() - 1]
    }
}

impl EdgeDistributionReport {
    /// No run yet.
    pub fn new() -> (r: EdgeDistributionReport)
        ensures
            r.net_pnls@.len() == 0,
            r.excluded_seeds@.len() == 0,
    {
        EdgeDistributionReport { net_pnls: Vec::new(), excluded_seeds: Vec::new() }
    }

    /// Adds the run with the given seed: its net result, or only its seed where the run lost an
    /// acknowledgement.
    pub fn add_run(&mut self, c: &Arithmetic, seed: u64, report: &BacktestReport)
        ensures
            final(self).net_pnls@ == (if report.bus_integrity_violated {
                old(self).net_pnls@
            } else {
                old(self).net_pnls@.push(report@.net(c))
            }),
            final(self).excluded_seeds@ == (if report.bus_integrity_violated {
                old(self).excluded_seeds@.push(seed)
            } else {
                old(self).excluded_seeds@
            }),
    {
        if report.bus_integrity_violated {
            self.excluded_seeds.push(seed);
        } else {
            self.net_pnls.push(report.net_pnl(c));
        }
    }

    /// How many runs count.
    pub fn len(&self) -> (r: usize)
        ensures
            r == self.net_pnls@.len(),
    {
        self.net_pnls.len()
    }

    /// Whether no run counts.
    pub fn is_empty(&self) -> (r: bool)
        ensures
            r == (self.net_pnls@.len() == 0),
    {
        self.net_pnls.len() == 0
    }

    /// The mean of the results; 0 of none.
    pub fn mean(&self, c: &Arithmetic) -> (r: Double)
        ensures
            r == (if self.net_pnls@.len() == 0 {
                Double::from_bits(ZERO)
            } else {
                c.over(
                    stats::total(c, self.net_pnls@),
                    c.of_count(self.net_pnls@.len() as u64),
                )
            }),
            r == mean_of(c, self.net_pnls@),
    {
        if self.net_pnls.len() == 0 {
            return Double::from_bits(ZERO);
        }
        c.over(stats::sum(c, &self.net_pnls), c.of_count(self.net_pnls.len() as u64))
    }

    /// A percentile of the results, `p` from 0 to 100.
    pub fn percentile(&self, c: &Arithmetic, p: Double) -> (r: Double)
        ensures
            r == percentile_of(c, self.net_pnls@, p),
    {
        if self.net_pnls.len() == 0 {
            return Double::from_bits(ZERO);
        }
        let sorted = sort(&self.net_pnls);
        proof {
            lemma_total_order();
            self.net_pnls@.lemma_sort_by_ensures(|a: Double, b: Double| in_total_order(a, b));
            self.net_pnls@.to_multiset_ensures();
            sorted@.to_multiset_ensures();
        }
        if self.net_pnls.len() == 1 {
            return self.net_pnls[0];
        }
        let hundred = Double::from_bits(HUNDRED);
        let rank = c.times(
            c.over(p.clamp(Double::from_bits(ZERO), hundred), hundred),
            c.of_count((sorted.len() - 1) as u64),
        );
        let lo: u64 = c.to_index(c.floor(rank));
        let hi: u64 = c.to_index(c.ceil(rank));
        if lo == hi {
            element_at(&sorted, lo)
        } else {
            let frac = c.minus(rank, c.of_count(lo));
            c.plus(
                element_at(&sorted, lo),
                c.times(c.minus(element_at(&sorted, hi), element_at(&sorted, lo)), frac),
            )
        }
    }

    /// The middle of the results.
    pub fn median(&self, c: &Arithmetic) -> (r: Double)
        ensures
            r == percentile_of(c, self.net_pnls@, Double::from_bits(FIFTY)),
    {
        self.percentile(c, Double::from_bits(FIFTY))
    }

    /// How many of the results are positive.
    pub fn profitable_count(&self) -> (r: usize)
        ensures
            r == positive(self.net_pnls@),
    {
        let mut count: usize = 0;
        let mut i: usize = 0;
        while i < self.net_pnls.len()
            invariant
                i <= self.net_pnls.len(),
                count <= i,
                count == positive(self.net_pnls@.take(i as int)),
            decreases self.net_pnls.len() - i,
        {
            assert(self.net_pnls@.take(i + 1).drop_last() =~= self.net_pnls@.take(i as int));
            if self.net_pnls[i].gt(Double::from_bits(ZERO)) {
                count += 1;
            }
            i += 1;
        }
        assert(self.net_pnls@.take(i as int) =~= self.net_pnls@);
        count
    }
}

/// A moved quote stays within its bounds.
pub proof fn law_jitter_stays_in_bounds(
    c: &Arithmetic,
    base: Quote,
    bid_noise: Double,
    ask_noise: Double,
)
    requires
        !c.plus(base.bid, bid_noise).is_nan(),
        !c.plus(base.ask, ask_noise).is_nan(),
    ensures
        ({
            let q = jittered(c, base, bid_noise, ask_noise);
            &&& Double::from_bits(LOWEST_BID).le(q.bid)
            &&& q.bid.le(Double::from_bits(HIGHEST_BID))
            &&& q.ask.le(Double::from_bits(HIGHEST_ASK))
        }),
{
}

/// The order of the runs does not matter to a percentile.
pub proof fn law_percentile_ignores_order(
    c: &Arithmetic,
    xs: Seq<Double>,
    ys: Seq<Double>,
    p: Double,
)
    requires
        xs.to_multiset() == ys.to_multiset(),
    ensures
        percentile_of(c, xs, p) == percentile_of(c, ys, p),
{
    let leq = |a: Double, b: Double| in_total_order(a, b);
    lemma_total_order();
    xs.lemma_sort_by_ensures(leq);
    ys.lemma_sort_by_ensures(leq);
    seq_lib::lemma_sorted_unique(sorted(xs), sorted(ys), leq);
    xs.to_multiset_ensures();
    ys.to_multiset_ensures();
    if xs.len() == 1 {
        broadcast use vstd::seq_lib::group_to_multiset_ensures;

        assert(xs.to_multiset().count(xs[0]) > 0);
        assert(ys.contains(xs[0]));
    }
}

/// A moved quote is never crossed, and each side is moved by its own noise where that leaves it
/// within its bounds and the sides apart.
pub proof fn law_jitter_never_crosses(
    c: &Arithmetic,
    base: Quote,
    bid_noise: Double,
    ask_noise: Double,
)
    requires
        c.is_accurate(),
        !c.plus(base.bid, bid_noise).is_nan(),
        !c.plus(base.ask, ask_noise).is_nan(),
    ensures
        ({
            let q = jittered(c, base, bid_noise, ask_noise);
            let bid = c.plus(base.bid, bid_noise);
            let ask = c.plus(base.ask, ask_noise);
            let bid_fits = Double::from_bits(LOWEST_BID).le(bid) && bid.le(
                Double::from_bits(HIGHEST_BID),
            );
            let ask_fits = Double::from_bits(LOWEST_ASK).le(ask) && ask.le(
                Double::from_bits(HIGHEST_ASK),
            );
            &&& q.bid.lt(q.ask)
            &&& bid_fits ==> q.bid == bid
            &&& bid_fits && ask_fits && bid.lt(ask) ==> q.ask == ask
        }),
{
    let bid = c.plus(base.bid, bid_noise).clamp(
        Double::from_bits(LOWEST_BID),
        Double::from_bits(HIGHEST_BID),
    );
    let zero = Double::from_bits(ZERO);
    let one = Double::from_bits(ONE);
    let high = Double::from_bits(HIGHEST_BID);
    let step = Double::from_bits(LEAST_SPREAD);
    let least = two_to(-7);
    let up = c.plus(bid, step);
    law_powers_are_ordered(-7, 1);
    law_powers_are_ordered(0, 1);
    assert(least.bits == 0x3F80_0000_0000_0000);
    law_exact_orders(zero, zero);
    law_exact_orders(zero, bid);
    law_exact_orders(bid, one);
    law_exact_orders(least, step);
    law_exact_orders(step, one);
    lemma_exact_power(-52);
    lemma_exact_power(-7);
    lemma_exact_power(0);
    lemma_exact_power(1);
    vstd::arithmetic::power2::lemma2_to64();
    vstd::arithmetic::power2::lemma_pow2_adds(1, 1074);
    vstd::arithmetic::power2::lemma_pow2_adds(32, 1022);
    vstd::arithmetic::power2::lemma_pow2_adds(13, 1054);
    lemma_sum_near(c, bid, step, 1);
    law_exact_orders(up, bid);
    law_exact_orders(bid, up);
}

/// The profitable runs are those whose result is above zero.
pub proof fn law_profitable_runs_are_above_zero(xs: Seq<Double>)
    ensures
        positive(xs) == xs.filter(|x: Double| Double::from_bits(ZERO).lt(x)).len(),
    decreases xs.len(),
{
    reveal(Seq::filter);
    if xs.len() > 0 {
        law_profitable_runs_are_above_zero(xs.drop_last());
    }
}

/// No result is above the hundredth percentile, and none below the zeroth.
pub proof fn law_percentiles_reach_both_ends(c: &Arithmetic, xs: Seq<Double>, i: int)
    requires
        c.is_ieee(),
        c.rounds(),
        c.is_accurate(),
        c.cuts(),
        c.rounds_up(),
        c.rounds_down(),
        c.keeps_one(),
        0 <= i < xs.len() <= 0x10_0000_0000_0000,
    ensures
        in_total_order(xs[i], percentile_of(c, xs, Double::from_bits(HUNDRED))),
        in_total_order(percentile_of(c, xs, Double::from_bits(ZERO)), xs[i]),
{
    reveal(Arithmetic::is_accurate);
    reveal(Arithmetic::keeps_one);
    reveal(Arithmetic::rounds_products);
    reveal(Arithmetic::rounds_counts);
    law_powers_are_ordered(64, 64);
    let zero = Double::from_bits(ZERO);
    let hundred = Double::from_bits(HUNDRED);
    let leq = |a: Double, b: Double| in_total_order(a, b);
    let s = sorted(xs);
    lemma_total_order();
    xs.lemma_sort_by_ensures(leq);
    xs.to_multiset_ensures();
    s.to_multiset_ensures();
    assert(s.len() == xs.len());
    assert(s.contains(xs[i])) by {
        assert(xs.to_multiset().count(xs[i]) > 0);
    }
    let j = choose|j: int| 0 <= j < s.len() && s[j] == xs[i];
    if j > 0 {
        assert(leq(s[0], s[j]));
    }
    if j < s.len() - 1 {
        assert(leq(s[j], s[s.len() - 1]));
    }
    if xs.len() >= 2 {
        let n = (xs.len() - 1) as u64;
        let last = c.of_count(n);
        let u = unit();
        lemma_exact_power(0);
        assert(last.exact() == n * u);
        assert(hundred.clamp(zero, hundred) == hundred);
        assert(c.over(hundred, hundred) == Double::from_bits(ONE));
        assert(c.times(Double::from_bits(ONE), last) == last);
        lemma_whole(c, last, n as int);
        assert(zero.clamp(zero, hundred) == zero);
        let none = c.over(zero, hundred);
        assert(none.is_zero());
        let rank = c.times(none, last);
        assert(c.times(last, none).is_zero());
        assert(rank.is_zero());
        law_exact_orders(rank, rank);
        lemma_whole(c, rank, 0);
    }
}

/// A whole number is rounded to itself both ways.
proof fn lemma_whole(c: &Arithmetic, x: Double, n: int)
    requires
        c.cuts(),
        c.rounds_up(),
        c.rounds_down(),
        x.is_finite(),
        0 <= n <= 0x10_0000_0000_0000,
        x.exact() == n * unit(),
    ensures
        c.to_index(c.floor(x)) == n,
        c.to_index(c.ceil(x)) == n,
{
    reveal(Arithmetic::cuts);
    reveal(Arithmetic::rounds_up);
    reveal(Arithmetic::rounds_down);
    let zero = Double::from_bits(ZERO);
    let u = unit();
    let (low, high) = (c.floor(x), c.ceil(x));
    lemma_exact_power(0);
    lemma_exact_power(53);
    vstd::arithmetic::power2::lemma2_to64();
    vstd::arithmetic::power2::lemma_pow2_adds(32, 21);
    vstd::arithmetic::power2::lemma_pow2_adds(53, 1074);
    law_powers_are_ordered(53, 53);
    law_exact_orders(zero, zero);
    let (a, b) = (low.exact(), high.exact());
    vstd::arithmetic::div_mod::lemma_fundamental_div_mod(a, u);
    vstd::arithmetic::div_mod::lemma_fundamental_div_mod(b, u);
    let (k, m) = (a / u, b / u);
    assert(k == n) by (nonlinear_arith)
        requires
            a == u * k,
            n * u - u < a <= n * u,
            u > 0,
    ;
    assert(m == n) by (nonlinear_arith)
        requires
            b == u * m,
            n * u <= b < n * u + u,
            u > 0,
    ;
    assert(0 <= n * u <= 0x20_0000_0000_0000 * u) by (nonlinear_arith)
        requires
            0 <= n <= 0x10_0000_0000_0000,
            u > 0,
    ;
    assert(u * k == n * u && u * m == n * u) by (nonlinear_arith)
        requires
            k == n,
            m == n,
    ;
    law_exact_orders(zero, low);
    law_exact_orders(low, two_to(53));
    law_exact_orders(zero, high);
    law_exact_orders(high, two_to(53));
    let (f, g) = (c.to_index(low) as int, c.to_index(high) as int);
    assert(f == n) by (nonlinear_arith)
        requires
            f * u <= n * u < (f + 1) * u,
            u > 0,
    ;
    assert(g == n) by (nonlinear_arith)
        requires
            g * u <= n * u < (g + 1) * u,
            u > 0,
    ;
}

/// The mean of the runs, as often as there are runs, is their total, and one more run adds its own
/// result to the total.
pub proof fn law_mean_shares_the_total(c: &Arithmetic, xs: Seq<Double>, x: Double)
    requires
        c.rounds(),
        c.is_accurate(),
        0 < xs.len() <= 0x1_0000,
        stats::total(c, xs).abs().le(two_to(20)),
    ensures
        stats::total(c, Seq::<Double>::empty()) == Double::from_bits(ZERO),
        stats::total(c, xs.push(x)) == c.plus(stats::total(c, xs), x),
        gap(mean_of(c, xs).exact() * xs.len(), stats::total(c, xs).exact()) <= two_to(
            -33,
        ).exact() * xs.len(),
{
    reveal(Arithmetic::is_accurate);
    reveal(Arithmetic::rounds_counts);
    law_powers_are_ordered(64, 64);
    assert(xs.push(x).drop_last() =~= xs);
    let sum = stats::total(c, xs);
    let n = xs.len() as int;
    let count = c.of_count(xs.len() as u64);
    let u = unit();
    lemma_exact_power(0);
    lemma_exact_power(-33);
    law_powers_are_ordered(20, 20);
    lemma_size(sum, two_to(20));
    let (a, b, top) = (sum.exact(), count.exact(), two_to(20).exact());
    assert(b == n * u);
    assert(b >= u) by (nonlinear_arith)
        requires
            b == n * u,
            n >= 1,
            u > 0,
    ;
    law_exact_orders(count, Double::from_bits(ZERO));
    law_exact_orders(Double::from_bits(ZERO), Double::from_bits(ZERO));
    assert(gap(a * u, 0) <= top * gap(b, 0)) by (nonlinear_arith)
        requires
            -top <= a <= top,
            b >= u,
            u > 0,
    ;
    lemma_quotient_near(c, sum, count, 20);
    let (q, near) = (c.over(sum, count).exact(), two_to(-33).exact());
    assert(q * b == (q * n) * u && near * gap(b, 0) == (near * n) * u) by (nonlinear_arith)
        requires
            b == n * u,
            b >= u,
            u > 0,
    ;
    lemma_cancel(q * n, a, near * n, u);
}

} // verus!
