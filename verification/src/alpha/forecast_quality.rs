//! How good the forecasts are, by source: scores, and a reliability curve by decile.
use vstd::prelude::*;
use crate::alpha::stats;
use crate::double::{Arithmetic, Double, HALF, ONE, ZERO};
use crate::keyed::TextMap;
use crate::rounding::{
    gap, law_exact_orders, law_powers_are_ordered, lemma_difference_near, lemma_exact_power,
    lemma_product_near, lemma_quotient_near, lemma_size, lemma_sum_near, two_to, unit, EXPONENT,
};

verus! {

/// 10.0
pub const BUCKETS: u64 = 0x4024_0000_0000_0000;

/// 1e-9
pub const DEGENERATE_BASE: u64 = 0x3E11_2E0B_E826_D695;

/// One decile of forecasts.
#[derive(Debug, Clone, Copy, PartialEq, Eq, Structural)]
pub struct Bucket {
    pub sum_predicted: Double,
    pub sum_actual: Double,
    pub count: u64,
}

/// What is known of one source.
#[derive(Debug)]
pub struct SourceStats {
    pub brier_sum: Double,
    pub log_loss_sum: Double,
    pub n: u64,
    pub buckets: Vec<Bucket>,
}

/// What is known of one source, its deciles as a sequence.
pub struct Score {
    pub brier_sum: Double,
    pub log_loss_sum: Double,
    pub n: nat,
    pub buckets: Seq<Bucket>,
}

/// One decile of a reliability curve: among the forecasts in it, which share came true.
#[derive(Debug, Clone, Copy, PartialEq, Eq, Structural)]
pub struct ReliabilityPoint {
    pub predicted_mean: Double,
    pub actual_frequency: Double,
    pub count: u64,
}

impl Bucket {
    /// A decile without forecasts.
    pub open spec fn blank() -> Bucket {
        Bucket {
            sum_predicted: Double::from_bits(ZERO),
            sum_actual: Double::from_bits(ZERO),
            count: 0,
        }
    }

    /// The point of the curve that the decile makes.
    pub open spec fn point(self, c: &Arithmetic) -> ReliabilityPoint {
        ReliabilityPoint {
            predicted_mean: c.over(self.sum_predicted, c.of_count(self.count)),
            actual_frequency: c.over(self.sum_actual, c.of_count(self.count)),
            count: self.count,
        }
    }
}

impl SourceStats {
    /// The score that the statistics hold.
    pub open spec fn score(&self) -> Score {
        Score {
            brier_sum: self.brier_sum,
            log_loss_sum: self.log_loss_sum,
            n: self.n as nat,
            buckets: self.buckets@,
        }
    }
}

impl Score {
    /// No forecasts yet.
    pub open spec fn blank() -> Score {
        Score {
            brier_sum: Double::from_bits(ZERO),
            log_loss_sum: Double::from_bits(ZERO),
            n: 0,
            buckets: Seq::new(10, |i: int| Bucket::blank()),
        }
    }

    /// The score after one more forecast with its outcome.
    pub open spec fn after(self, c: &Arithmetic, predicted: Double, outcome: bool) -> Score {
        let p = stats::clamp_probability(predicted);
        let one = Double::from_bits(ONE);
        let y = if outcome {
            one
        } else {
            Double::from_bits(ZERO)
        };
        let k = decile(c, p);
        Score {
            brier_sum: c.plus(self.brier_sum, c.integer_power(c.minus(p, y), 2)),
            log_loss_sum: c.minus(
                self.log_loss_sum,
                c.plus(
                    c.times(y, c.ln(p)),
                    c.times(c.minus(one, y), c.ln(c.minus(one, p))),
                ),
            ),
            n: self.n + 1,
            buckets: self.buckets.update(
                k,
                Bucket {
                    sum_predicted: c.plus(self.buckets[k].sum_predicted, p),
                    sum_actual: c.plus(self.buckets[k].sum_actual, y),
                    count: (self.buckets[k].count + 1) as u64,
                },
            ),
        }
    }

    /// Ten deciles, none with more forecasts than there are.
    pub open spec fn is_sound(self) -> bool {
        &&& self.buckets.len() == 10
        &&& forall|i: int| 0 <= i < 10 ==> (#[trigger] self.buckets[i]).count <= self.n
    }
}

/// The decile of a probability, the last one for everything from 0.9 on.
pub open spec fn decile(c: &Arithmetic, p: Double) -> int {
    let k = c.to_index(c.times(p, Double::from_bits(BUCKETS)));
    if k < 9 {
        k as int
    } else {
        9
    }
}

/// The points of the deciles that hold forecasts.
pub open spec fn curve(c: &Arithmetic, buckets: Seq<Bucket>) -> Seq<ReliabilityPoint>
    decreases buckets.len(),
{
    if buckets.len() == 0 {
        Seq::empty()
    } else {
        let before = curve(c, buckets.drop_last());
        if buckets.last().count > 0 {
            before.push(buckets.last().point(c))
        } else {
            before
        }
    }
}

/// How much better a Brier score is than that of forecasting the base rate every time; none where
/// the base rate leaves nothing to forecast.
pub open spec fn skill_over(c: &Arithmetic, brier: Double, base: Double) -> Option<Double> {
    let one = Double::from_bits(ONE);
    let baseline = c.times(base, c.minus(one, base));
    if baseline.le(Double::from_bits(DEGENERATE_BASE)) {
        None
    } else {
        Some(c.minus(one, c.over(brier, baseline)))
    }
}

/// Collects forecasts and outcomes by source.
#[derive(Debug)]
pub struct ForecastQualityTracker {
    per_source: TextMap<SourceStats>,
    base_rate_sum: Double,
    base_rate_n: u64,
}

impl Default for ForecastQualityTracker {
    fn default() -> (r: ForecastQualityTracker)
        ensures
            r.well_formed(),
            forall|source: Seq<char>| #[trigger] r.score_of(source) == Score::blank(),
            r.outcomes() == Double::from_bits(ZERO),
            r.forecasts() == 0,
    {
        ForecastQualityTracker::new()
    }
}

impl ForecastQualityTracker {
    /// The score of a source.
    pub closed spec fn score_of(&self, source: Seq<char>) -> Score {
        if self.per_source@.contains_key(source) {
            self.per_source@[source].score()
        } else {
            Score::blank()
        }
    }

    /// The sum of all outcomes.
    pub closed spec fn outcomes(&self) -> Double {
        self.base_rate_sum
    }

    /// How many forecasts there are in all.
    pub closed spec fn forecasts(&self) -> nat {
        self.base_rate_n as nat
    }

    /// Every score is sound and holds no more forecasts than there are in all.
    pub open spec fn well_formed(&self) -> bool {
        forall|source: Seq<char>| #[trigger]
            self.score_of(source).is_sound() && self.score_of(source).n <= self.forecasts()
    }

    /// No forecasts yet.
    pub fn new() -> (r: ForecastQualityTracker)
        ensures
            r.well_formed(),
            forall|source: Seq<char>| #[trigger] r.score_of(source) == Score::blank(),
            r.outcomes() == Double::from_bits(ZERO),
            r.forecasts() == 0,
    {
        ForecastQualityTracker {
            per_source: TextMap::new(),
            base_rate_sum: Double::from_bits(ZERO),
            base_rate_n: 0,
        }
    }

    /// Records one forecast of a source once its outcome is known.
    pub fn record(
        &mut self,
        c: &Arithmetic,
        source: &str,
        predicted_probability: Double,
        outcome: bool,
    )
        requires
            old(self).well_formed(),
            old(self).forecasts() < u64::MAX,
        ensures
            final(self).well_formed(),
            final(self).score_of(source@) == old(self).score_of(source@).after(
                c,
                predicted_probability,
                outcome,
            ),
            forall|other: Seq<char>|
                other != source@ ==> #[trigger] final(self).score_of(other) == old(self).score_of(
                    other,
                ),
            final(self).outcomes() == c.plus(
                old(self).outcomes(),
                if outcome {
                    Double::from_bits(ONE)
                } else {
                    Double::from_bits(ZERO)
                },
            ),
            final(self).forecasts() == old(self).forecasts() + 1,
    {
        let p = stats::clamp_probability(predicted_probability);
        let one = Double::from_bits(ONE);
        let y = if outcome {
            one
        } else {
            Double::from_bits(ZERO)
        };
        let ghost was = self.score_of(source@);
        assert(old(self).score_of(source@).is_sound());
        assert(was.is_sound() && was.n <= self.forecasts());
        let mut known = match self.per_source.take(source) {
            Some(s) => s,
            None => blank_stats(),
        };
        assert(known.score() == was);
        known.brier_sum = c.plus(known.brier_sum, c.integer_power(c.minus(p, y), 2));
        known.log_loss_sum =
        c.minus(
            known.log_loss_sum,
            c.plus(c.times(y, c.ln(p)), c.times(c.minus(one, y), c.ln(c.minus(one, p)))),
        );
        known.n = known.n + 1;
        let k: u64 = c.to_index(c.times(p, Double::from_bits(BUCKETS)));
        let k: usize = if k < 9 {
            k as usize
        } else {
            9
        };
        let b = known.buckets[k];
        known.buckets.set(
            k,
            Bucket {
                sum_predicted: c.plus(b.sum_predicted, p),
                sum_actual: c.plus(b.sum_actual, y),
                count: b.count + 1,
            },
        );
        let ghost now = known.score();
        assert(now == was.after(c, predicted_probability, outcome));
        self.per_source.insert(source.to_owned(), known);
        self.base_rate_sum = c.plus(self.base_rate_sum, y);
        self.base_rate_n = self.base_rate_n + 1;
        proof {
            assert(now.is_sound()) by {
                assert forall|i: int| 0 <= i < 10 implies (#[trigger] now.buckets[i]).count
                    <= now.n by {
                    assert(was.buckets[i].count <= was.n);
                }
            }
            assert forall|other: Seq<char>| other != source@ implies #[trigger] self.score_of(other)
                == old(self).score_of(other) by {}
            assert forall|any: Seq<char>| #[trigger] self.score_of(any).is_sound() && self.score_of(
                any,
            ).n <= self.forecasts() by {
                assert(old(self).score_of(any).is_sound());
            }
        }
    }

    fn base_rate(&self, c: &Arithmetic) -> (r: Double)
        ensures
            r == self.base(c),
    {
        if self.base_rate_n == 0 {
            Double::from_bits(HALF)
        } else {
            c.over(self.base_rate_sum, c.of_count(self.base_rate_n))
        }
    }

    /// The share of forecasts that came true, over all sources; one half before any.
    pub open spec fn base(&self, c: &Arithmetic) -> Double {
        if self.forecasts() == 0 {
            Double::from_bits(HALF)
        } else {
            c.over(self.outcomes(), c.of_count(self.forecasts() as u64))
        }
    }

    /// The Brier score of a source.
    pub open spec fn brier(&self, c: &Arithmetic, source: Seq<char>) -> Option<Double> {
        let s = self.score_of(source);
        if s.n > 0 {
            Some(c.over(s.brier_sum, c.of_count(s.n as u64)))
        } else {
            None
        }
    }

    /// The Brier score of a source; `None` before its first forecast.
    pub fn brier_score(&self, c: &Arithmetic, source: &str) -> (r: Option<Double>)
        ensures
            r == self.brier(c, source@),
    {
        match self.per_source.get(source) {
            Some(s) => if s.n > 0 {
                Some(c.over(s.brier_sum, c.of_count(s.n)))
            } else {
                None
            },
            None => None,
        }
    }

    /// The mean log loss of a source; `None` before its first forecast.
    pub fn log_loss(&self, c: &Arithmetic, source: &str) -> (r: Option<Double>)
        ensures
            r == ({
                let s = self.score_of(source@);
                if s.n > 0 {
                    Some(c.over(s.log_loss_sum, c.of_count(s.n as u64)))
                } else {
                    None
                }
            }),
    {
        match self.per_source.get(source) {
            Some(s) => if s.n > 0 {
                Some(c.over(s.log_loss_sum, c.of_count(s.n)))
            } else {
                None
            },
            None => None,
        }
    }

    /// `1 - brier / baseline`, the baseline being a constant forecast of the base rate. `None`
    /// before the first forecast, and where every outcome has been the same.
    pub fn skill_score(&self, c: &Arithmetic, source: &str) -> (r: Option<Double>)
        ensures
            r == (match self.brier(c, source@) {
                Some(brier) => skill_over(c, brier, self.base(c)),
                None => None,
            }),
            r == (match self.brier(c, source@) {
                Some(brier) => {
                    let one = Double::from_bits(ONE);
                    let baseline = c.times(self.base(c), c.minus(one, self.base(c)));
                    if baseline.le(Double::from_bits(DEGENERATE_BASE)) {
                        None
                    } else {
                        Some(c.minus(one, c.over(brier, baseline)))
                    }
                },
                None => None,
            }),
    {
        let brier = match self.brier_score(c, source) {
            Some(b) => b,
            None => return None,
        };
        let one = Double::from_bits(ONE);
        let base = self.base_rate(c);
        let baseline = c.times(base, c.minus(one, base));
        if baseline.le(Double::from_bits(DEGENERATE_BASE)) {
            return None;
        }
        Some(c.minus(one, c.over(brier, baseline)))
    }

    /// The reliability curve of a source, without empty deciles.
    pub fn reliability_curve(&self, c: &Arithmetic, source: &str) -> (r: Vec<ReliabilityPoint>)
        ensures
            r@ == curve(c, self.score_of(source@).buckets),
    {
        let mut out: Vec<ReliabilityPoint> = Vec::new();
        match self.per_source.get(source) {
            Some(s) => {
                let mut i: usize = 0;
                while i < s.buckets.len()
                    invariant
                        i <= s.buckets.len(),
                        out@ == curve(c, s.buckets@.take(i as int)),
                    decreases s.buckets.len() - i,
                {
                    assert(s.buckets@.take(i + 1).drop_last() == s.buckets@.take(i as int));
                    let b = s.buckets[i];
                    if b.count > 0 {
                        out.push(
                            ReliabilityPoint {
                                predicted_mean: c.over(b.sum_predicted, c.of_count(b.count)),
                                actual_frequency: c.over(b.sum_actual, c.of_count(b.count)),
                                count: b.count,
                            },
                        );
                    }
                    i += 1;
                }
                assert(s.buckets@.take(i as int) == s.buckets@);
            },
            None => {
                proof {
                    lemma_blank_curve(c, Score::blank().buckets);
                }
            },
        }
        out
    }

    /// How many forecasts of a source there are.
    pub fn sample_count(&self, source: &str) -> (r: u64)
        ensures
            r == self.score_of(source@).n,
    {
        match self.per_source.get(source) {
            Some(s) => s.n,
            None => 0,
        }
    }
}

fn blank_stats() -> (r: SourceStats)
    ensures
        r.score() == Score::blank(),
{
    let zero = Double::from_bits(ZERO);
    let mut buckets: Vec<Bucket> = Vec::new();
    let mut i: usize = 0;
    while i < 10
        invariant
            i <= 10,
            zero == Double::from_bits(ZERO),
            buckets@ == Seq::new(i as nat, |i: int| Bucket::blank()),
        decreases 10 - i,
    {
        buckets.push(Bucket { sum_predicted: zero, sum_actual: zero, count: 0 });
        i += 1;
        assert(buckets@ == Seq::new(i as nat, |i: int| Bucket::blank()));
    }
    SourceStats { brier_sum: zero, log_loss_sum: zero, n: 0, buckets }
}

proof fn lemma_blank_curve(c: &Arithmetic, buckets: Seq<Bucket>)
    requires
        forall|i: int| 0 <= i < buckets.len() ==> (#[trigger] buckets[i]).count == 0,
    ensures
        curve(c, buckets) == Seq::<ReliabilityPoint>::empty(),
    decreases buckets.len(),
{
    if buckets.len() > 0 {
        assert(buckets[buckets.len() - 1].count == 0);
        assert forall|i: int| 0 <= i < buckets.drop_last().len() implies (
        #[trigger] buckets.drop_last()[i]).count == 0 by {
            assert(buckets[i].count == 0);
        }
        lemma_blank_curve(c, buckets.drop_last());
    }
}

/// Whether a forecast is one that is not held at its bounds.
pub open spec fn is_open(p: Double) -> bool {
    Double::from_bits(stats::PROB_EPSILON).le(p) && p.le(Double::from_bits(stats::PROB_CEILING))
}

/// One, for an outcome that came true.
pub open spec fn came_true(outcome: bool) -> int {
    if outcome {
        unit()
    } else {
        0
    }
}

/// A forecast adds the square of its distance from the outcome to the Brier sum, up to a few
/// roundings, and counts once.
pub proof fn law_brier_adds_the_squared_error(
    c: &Arithmetic,
    score: Score,
    p: Double,
    outcome: bool,
)
    requires
        c.is_accurate(),
        c.has_functions(),
        is_open(p),
        score.brier_sum.abs().le(two_to(20)),
    ensures
        ({
            let after = score.after(c, p, outcome);
            let miss = p.exact() - came_true(outcome);
            &&& gap((after.brier_sum.exact() - score.brier_sum.exact()) * unit(), miss * miss) <= 2
                * two_to(-32).exact() * unit()
            &&& after.n == score.n + 1
        }),
{
    let zero = Double::from_bits(ZERO);
    let one = Double::from_bits(ONE);
    let y = if outcome {
        one
    } else {
        zero
    };
    let u = unit();
    lemma_exact_power(0);
    lemma_exact_power(20);
    lemma_exact_power(-53);
    lemma_exact_power(-32);
    law_powers_are_ordered(0, 20);
    law_exact_orders(two_to(0), two_to(20));
    assert(two_to(0) == one);
    law_exact_orders(zero, p);
    law_exact_orders(p, one);
    lemma_difference_near(c, p, y, 0);
    let d = c.minus(p, y);
    lemma_size(d, one);
    let a = d.exact();
    assert(gap(a * a, 0) <= u * u) by (nonlinear_arith)
        requires
            -u <= a <= u,
    ;
    lemma_product_near(c, d, d, 0);
    reveal(Arithmetic::has_functions);
    let square = c.integer_power(d, 2);
    assert(square == c.times(d, d));
    lemma_size(square, one);
    lemma_size(score.brier_sum, two_to(20));
    lemma_sum_near(c, score.brier_sum, square, 21);
    let (e, g) = (two_to(-53).exact(), two_to(-32).exact());
    law_powers_are_ordered(-53, -35);
    law_exact_orders(two_to(-53), two_to(-35));
    lemma_exact_power(-35);
    lemma_exact_power(-34);
    lemma_exact_power(-33);
    let z = two_to(-35).exact();
    let (f, b, m) = (
        c.plus(score.brier_sum, square).exact(),
        score.brier_sum.exact(),
        p.exact() - y.exact(),
    );
    let q = square.exact();
    assert(gap((f - b) * u, q * u) <= 8 * (z * u)) by (nonlinear_arith)
        requires
            gap(f, b + q) <= 8 * z,
            u > 0,
    ;
    assert(gap(a * a, m * m) <= 2 * (z * u)) by (nonlinear_arith)
        requires
            gap(a, m) <= z,
            -u <= a <= u,
            -u <= m <= u,
            u > 0,
    ;
    assert(e * u <= z * u) by (nonlinear_arith)
        requires
            e <= z,
            u > 0,
    ;
    assert(2 * g * u == 16 * (z * u) && z * u >= 0) by (nonlinear_arith)
        requires
            g == 8 * z,
            z > 0,
            u > 0,
    ;
}

/// The log loss charges a forecast the logarithm of what it gave to the outcome that came: of the
/// forecast itself where it came true, and of what it left to one where it did not.
pub proof fn law_log_loss_charges_the_outcome(c: &Arithmetic, score: Score, p: Double)
    requires
        c.is_ieee(),
        c.keeps_order(),
        c.rounds(),
        c.rounds_differences(),
        is_open(p),
        c.ln(p).is_finite(),
        c.ln(c.minus(Double::from_bits(ONE), p)).is_finite(),
        !c.ln(p).is_zero(),
        !c.ln(c.minus(Double::from_bits(ONE), p)).is_zero(),
    ensures
        score.after(c, p, true).log_loss_sum == c.minus(score.log_loss_sum, c.ln(p)),
        score.after(c, p, false).log_loss_sum == c.minus(
            score.log_loss_sum,
            c.ln(c.minus(Double::from_bits(ONE), p)),
        ),
{
    reveal(Arithmetic::rounds_products);
    let zero = Double::from_bits(ZERO);
    let one = Double::from_bits(ONE);
    let (l, r) = (c.ln(p), c.ln(c.minus(one, p)));
    assert(c.minus(one, one).is_zero());
    assert(c.times(l, one) == l);
    assert(c.times(one, l) == l);
    assert(c.times(r, one) == r);
    let none = c.minus(one, one);
    assert(c.times(r, none).is_zero());
    assert(c.times(none, r) == c.times(r, none));
    assert(c.times(l, zero).is_zero());
    assert(c.times(zero, l) == c.times(l, zero));
    assert(c.plus(l, c.times(none, r)) == l);
    assert(c.minus(one, zero) == one) by {
        reveal(Arithmetic::rounds_differences);
        assert(zero.neg().is_zero());
        assert(c.plus(one, zero.neg()) == one);
    }
    assert(c.times(one, r) == r);
    assert(c.plus(c.times(zero, l), r) == r);
}

proof fn lemma_ten()
    ensures
        Double::from_bits(BUCKETS).exact() == 10 * unit(),
        Double::from_bits(BUCKETS).is_finite(),
{
    let step = EXPONENT as int;
    let m = BUCKETS as int;
    assert(m / step == 1026 && m % step == 0x4_0000_0000_0000);
    lemma_exact_power(0);
    let p = vstd::arithmetic::power2::pow2(1025) as int;
    vstd::arithmetic::power2::lemma2_to64();
    vstd::arithmetic::power2::lemma_pow2_adds(49, 1025);
    vstd::arithmetic::power2::lemma_pow2_adds(32, 17);
    assert(vstd::arithmetic::power2::pow2(49) == 0x2_0000_0000_0000);
    assert(Double::from_bits(BUCKETS).exact() == (step + 0x4_0000_0000_0000) * p);
    assert((step + 0x4_0000_0000_0000) * p == 10 * (0x2_0000_0000_0000 * p)) by (nonlinear_arith)
        requires
            step == 0x10_0000_0000_0000,
    ;
}

/// A forecast goes into the one decile that it lies in, up to a rounding at the edges, with its
/// outcome, and into no other.
pub proof fn law_forecast_goes_into_its_decile(
    c: &Arithmetic,
    score: Score,
    p: Double,
    outcome: bool,
    k: int,
)
    requires
        c.keeps_order(),
        c.is_accurate(),
        c.cuts(),
        is_open(p),
        score.buckets.len() == 10,
        0 <= k < 10,
        score.buckets[k].count < u64::MAX,
        score.buckets[k].sum_predicted.abs().le(two_to(20)),
        score.buckets[k].sum_actual.abs().le(two_to(20)),
    ensures
        ({
            let (before, after) = (score.buckets[k], score.after(c, p, outcome).buckets[k]);
            let e = two_to(-40).exact();
            &&& after == before || after.count == before.count + 1
            &&& after != before ==> {
                &&& k * unit() - e <= 10 * p.exact() <= (k + 1) * unit() + e
                &&& gap(after.sum_predicted.exact(), before.sum_predicted.exact() + p.exact())
                    <= two_to(-32).exact()
                &&& gap(
                    after.sum_actual.exact(),
                    before.sum_actual.exact() + came_true(outcome),
                ) <= two_to(-32).exact()
            }
            &&& k * unit() + e < 10 * p.exact() && 10 * p.exact() < (k + 1) * unit() - e
                ==> after.count == before.count + 1
        }),
{
    let zero = Double::from_bits(ZERO);
    let one = Double::from_bits(ONE);
    let ten = Double::from_bits(BUCKETS);
    let u = unit();
    lemma_ten();
    lemma_exact_power(0);
    lemma_exact_power(1);
    lemma_exact_power(2);
    lemma_exact_power(3);
    lemma_exact_power(20);
    lemma_exact_power(-32);
    lemma_exact_power(-49);
    lemma_exact_power(-40);
    law_powers_are_ordered(-49, -40);
    law_exact_orders(two_to(-49), two_to(-40));
    law_powers_are_ordered(-49, -1);
    law_exact_orders(two_to(-49), two_to(-1));
    lemma_exact_power(-1);
    law_powers_are_ordered(0, 20);
    law_exact_orders(two_to(0), two_to(20));
    law_powers_are_ordered(4, 53);
    assert(two_to(0) == one);
    law_exact_orders(zero, p);
    law_exact_orders(p, one);
    let (a, e) = (p.exact(), two_to(-49).exact());
    assert(gap(a * (10 * u), 0) <= (16 * u) * u && a * (10 * u) == 10 * a * u) by (nonlinear_arith)
        requires
            0 <= a <= u,
    ;
    lemma_product_near(c, p, ten, 4);
    let t = c.times(p, ten);
    let x = t.exact();
    assert(gap(x, 10 * a) <= e) by (nonlinear_arith)
        requires
            gap(x * u, 10 * a * u) <= e * u,
            u > 0,
    ;
    assert(zero.le(t)) by {
        law_exact_orders(zero, ten);
        law_exact_orders(zero, zero);
    }
    reveal(Arithmetic::cuts);
    assert(t.le(two_to(53)));
    let n = c.to_index(t) as int;
    assert(n * u <= x < (n + 1) * u);
    assert(n <= 10) by (nonlinear_arith)
        requires
            n * u <= x,
            x <= 10 * u + e,
            e < u,
            u > 0,
    ;
    let d = decile(c, p);
    assert(stats::clamp_probability(p) == p);
    let after = score.after(c, p, outcome);
    if k == d {
        let b = score.buckets[k];
        lemma_size(b.sum_predicted, two_to(20));
        lemma_size(b.sum_actual, two_to(20));
        lemma_sum_near(c, b.sum_predicted, p, 21);
        let y = if outcome {
            one
        } else {
            zero
        };
        lemma_sum_near(c, b.sum_actual, y, 21);
        assert(after.buckets[k].count == b.count + 1);
        let below_40 = two_to(-40).exact();
        assert(k * u - below_40 <= 10 * a) by (nonlinear_arith)
            requires
                n * u <= x,
                k <= n,
                x <= 10 * a + e,
                e <= below_40,
                u > 0,
        ;
        if n < 9 {
            assert(k == n);
        } else {
            assert(10 * a <= 10 * u);
            assert((k + 1) * u == 10 * u);
        }
    } else {
        assert(after.buckets[k] == score.buckets[k]);
        if k * u + two_to(-40).exact() < 10 * a && 10 * a < (k + 1) * u - two_to(-40).exact() {
            assert(n == k) by (nonlinear_arith)
                requires
                    n * u <= x < (n + 1) * u,
                    k * u < x < (k + 1) * u,
                    u > 0,
            ;
            assert(false);
        }
    }
}

/// A point of the curve is the mean of its decile: times the count, its forecast is the sum of the
/// forecasts and its frequency the number of them that came true, up to a rounding.
pub proof fn law_point_is_the_mean_of_its_decile(c: &Arithmetic, b: Bucket)
    requires
        c.keeps_order(),
        c.is_accurate(),
        1 <= b.count <= 1_000_000,
        b.sum_predicted.is_finite(),
        b.sum_actual.is_finite(),
        gap(b.sum_predicted.exact(), 0) <= b.count * unit(),
        gap(b.sum_actual.exact(), 0) <= b.count * unit(),
    ensures
        ({
            let point = b.point(c);
            &&& gap(point.predicted_mean.exact() * b.count, b.sum_predicted.exact()) <= two_to(
                -53,
            ).exact() * b.count
            &&& gap(point.actual_frequency.exact() * b.count, b.sum_actual.exact()) <= two_to(
                -53,
            ).exact() * b.count
            &&& point.count == b.count
        }),
{
    lemma_mean_of(c, b.sum_predicted, b.count);
    lemma_mean_of(c, b.sum_actual, b.count);
}

proof fn lemma_mean_of(c: &Arithmetic, sum: Double, count: u64)
    requires
        c.keeps_order(),
        c.is_accurate(),
        1 <= count <= 1_000_000,
        sum.is_finite(),
        gap(sum.exact(), 0) <= count * unit(),
    ensures
        c.over(sum, c.of_count(count)).is_finite(),
        gap(c.over(sum, c.of_count(count)).exact() * count, sum.exact()) <= two_to(-53).exact()
            * count,
{
    let zero = Double::from_bits(ZERO);
    let k = c.of_count(count);
    let (u, n) = (unit(), count as int);
    lemma_exact_power(0);
    lemma_exact_power(-53);
    assert(two_to(0) == Double::from_bits(ONE));
    assert(k.exact() == n * u && k.is_finite()) by {
        reveal(Arithmetic::is_accurate);
    }
    assert(n * u >= u) by (nonlinear_arith)
        requires
            n >= 1,
            u > 0,
    ;
    law_exact_orders(k, zero);
    law_exact_orders(zero, zero);
    let (a, b) = (sum.exact(), k.exact());
    assert(gap(a * u, 0) <= u * gap(b, 0)) by (nonlinear_arith)
        requires
            gap(a, 0) <= b,
            b > 0,
            u > 0,
    ;
    lemma_quotient_near(c, sum, k, 0);
    let (q, e) = (c.over(sum, k).exact(), two_to(-53).exact());
    assert(gap(q * n, a) <= e * n) by (nonlinear_arith)
        requires
            gap(q * b, a * u) <= e * gap(b, 0),
            b == n * u,
            n >= 1,
            u > 0,
    ;
}

/// The curve has a point for each decile that holds forecasts, and none for the others.
pub proof fn law_curve_has_every_decile_with_forecasts(
    c: &Arithmetic,
    buckets: Seq<Bucket>,
    k: int,
)
    requires
        0 <= k < buckets.len(),
    ensures
        buckets[k].count > 0 ==> curve(c, buckets).contains(buckets[k].point(c)),
        curve(c, buckets).len() <= buckets.len(),
        forall|i: int|
            0 <= i < curve(c, buckets).len() ==> (#[trigger] curve(c, buckets)[i]).count > 0,
    decreases buckets.len(),
{
    let rest = buckets.drop_last();
    let before = curve(c, rest);
    let all = curve(c, buckets);
    if rest.len() > 0 {
        law_curve_has_every_decile_with_forecasts(
            c,
            rest,
            if k < rest.len() {
                k
            } else {
                0
            },
        );
    } else {
        assert(before.len() == 0);
    }
    if buckets[k].count > 0 {
        if k < rest.len() {
            assert(rest[k] == buckets[k]);
            let i = before.index_of(buckets[k].point(c));
            assert(all[i] == before[i]);
        } else {
            assert(all[all.len() - 1] == buckets.last().point(c));
        }
    }
    assert forall|i: int| 0 <= i < all.len() implies (#[trigger] all[i]).count > 0 by {
        if i < before.len() {
            assert(all[i] == before[i]);
        }
    }
}

/// Skill is one for a source that never misses, it falls as the Brier score grows, and it is zero,
/// up to a rounding, for a source that is as good as the base rate.
pub proof fn law_skill_is_held_against_the_base_rate(
    c: &Arithmetic,
    better: Double,
    worse: Double,
    base: Double,
)
    requires
        c.is_ieee(),
        c.keeps_order(),
        c.rounds(),
        c.rounds_differences(),
        c.is_accurate(),
        Double::from_bits(ZERO).le(better),
        better.le(worse),
        worse.le(Double::from_bits(ONE)),
        Double::from_bits(ZERO).le(base),
        base.le(Double::from_bits(ONE)),
        skill_over(c, better, base) is Some,
    ensures
        skill_over(c, worse, base) is Some,
        skill_over(c, worse, base)->0.le(skill_over(c, better, base)->0),
        better.is_zero() ==> skill_over(c, better, base)->0.same(Double::from_bits(ONE)),
        gap(better.exact() * unit(), base.exact() * (unit() - base.exact())) <= 2 * two_to(
            -53,
        ).exact() * unit() ==> gap(skill_over(c, better, base)->0.exact(), 0) <= two_to(
            -20,
        ).exact(),
{
    reveal(Arithmetic::rounds_quotients);
    reveal(Arithmetic::rounds_differences);
    let zero = Double::from_bits(ZERO);
    let one = Double::from_bits(ONE);
    let u = unit();
    let rest = c.minus(one, base);
    let baseline = c.times(base, rest);
    lemma_exact_power(0);
    lemma_exact_power(1);
    lemma_exact_power(-53);
    assert(two_to(0) == one);
    law_exact_orders(zero, base);
    law_exact_orders(base, one);
    lemma_difference_near(c, one, base, 0);
    lemma_size(rest, one);
    let (b, r) = (base.exact(), rest.exact());
    assert(gap(b * r, 0) <= u * u) by (nonlinear_arith)
        requires
            0 <= b <= u,
            -u <= r <= u,
    ;
    lemma_product_near(c, base, rest, 0);
    lemma_size(baseline, one);
    // The smallest base that is not degenerate is above 2^-30.
    law_powers_are_ordered(-30, 0);
    lemma_exact_power(-30);
    assert(two_to(-30).bits == 0x3E10_0000_0000_0000);
    assert(two_to(-30).le(Double::from_bits(DEGENERATE_BASE)));
    assert(two_to(-30).lt(baseline));
    law_exact_orders(two_to(-30), baseline);
    assert(zero.lt(baseline) && baseline.bits <= crate::double::INFINITY);
    let (x, y) = (c.over(better, baseline), c.over(worse, baseline));
    assert(zero.le(x) && zero.le(y) && x.le(y));
    lemma_finite_ratio(c, better, baseline);
    lemma_finite_ratio(c, worse, baseline);
    assert(c.minus(one, y).le(c.minus(one, x)));
    if better.is_zero() {
        assert(x.is_zero());
        assert(x.neg().is_zero());
        assert(c.minus(one, x) == c.plus(one, x.neg()));
    }
    law_exact_orders(zero, better);
    law_exact_orders(better, one);
    let (a, d, e) = (better.exact(), baseline.exact(), two_to(-53).exact());
    if gap(a * u, b * (u - b)) <= 2 * e * u {
        assert(gap(b * r, b * (u - b)) <= e * u) by (nonlinear_arith)
            requires
                gap(r, u - b) <= e,
                0 <= b <= u,
                e > 0,
        ;
        assert(2 * e * u == 2 * (e * u)) by (nonlinear_arith);
        assert(gap(a * u, d * u) <= 4 * (e * u));
        assert(gap(a, d) <= 4 * e) by (nonlinear_arith)
            requires
                gap(a * u, d * u) <= 4 * (e * u),
                u > 0,
        ;
        let q = x.exact();
        let h = two_to(-30).exact();
        let g = two_to(-23).exact();
        lemma_exact_power(-23);
        lemma_exact_power(-22);
        lemma_exact_power(-21);
        vstd::arithmetic::power2::lemma_pow2_adds(1021, 1074);
        vstd::arithmetic::power2::lemma_pow2_adds(1044, 1051);
        assert(e * u == h * g);
        law_powers_are_ordered(-23, -3);
        law_exact_orders(two_to(-23), two_to(-3));
        lemma_exact_power(-3);
        lemma_exact_power(-2);
        lemma_exact_power(-1);
        assert(gap(a * u, d * u) <= 4 * (g * d)) by (nonlinear_arith)
            requires
                gap(a, d) <= 4 * e,
                e * u == h * g,
                d >= h,
                u > 0,
                g > 0,
        ;
        assert(gap(a * u, 0) <= (2 * u) * gap(d, 0)) by (nonlinear_arith)
            requires
                gap(a * u, d * u) <= 4 * (g * d),
                8 * g <= u,
                d > 0,
                u > 0,
                a >= 0,
        ;
        law_exact_orders(baseline, zero);
        lemma_quotient_near(c, better, baseline, 1);
        let t = two_to(-52).exact();
        law_powers_are_ordered(-52, -23);
        law_exact_orders(two_to(-52), two_to(-23));
        assert(gap(q, u) <= 5 * g) by (nonlinear_arith)
            requires
                gap(q * d, a * u) <= t * gap(d, 0),
                gap(a * u, d * u) <= 4 * (g * d),
                t <= g,
                d > 0,
        ;
        lemma_difference_near(c, one, x, 1);
        assert(two_to(-20).exact() == 8 * g);
    }
}

proof fn lemma_finite_ratio(c: &Arithmetic, a: Double, d: Double)
    requires
        c.is_accurate(),
        Double::from_bits(ZERO).le(a),
        a.le(Double::from_bits(ONE)),
        two_to(-30).le(d),
        d.is_finite(),
    ensures
        c.over(a, d).is_finite(),
{
    let zero = Double::from_bits(ZERO);
    let one = Double::from_bits(ONE);
    let (u, h, big) = (unit(), two_to(-30).exact(), two_to(30).exact());
    lemma_exact_power(0);
    lemma_exact_power(30);
    lemma_exact_power(-30);
    law_powers_are_ordered(-30, 0);
    assert(two_to(0) == one);
    law_exact_orders(zero, a);
    law_exact_orders(a, one);
    law_exact_orders(two_to(-30), d);
    law_exact_orders(d, zero);
    law_exact_orders(zero, zero);
    vstd::arithmetic::power2::lemma_pow2_adds(1104, 1044);
    vstd::arithmetic::power2::lemma_pow2_adds(1074, 1074);
    let (x, y) = (a.exact(), d.exact());
    assert(gap(x * u, 0) <= big * gap(y, 0)) by (nonlinear_arith)
        requires
            0 <= x <= u,
            y >= h,
            big * h == u * u,
            u > 0,
            big > 0,
            h > 0,
    ;
    lemma_quotient_near(c, a, d, 30);
}

} // verus!
