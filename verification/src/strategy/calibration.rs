//! Online calibration: moving averages of what happens to orders, by venue.
use vstd::prelude::*;
use crate::double::{Arithmetic, Double, HALF, ONE, ZERO};
use crate::keyed::VenueMap;
use crate::rounding::{
    gap, law_exact_orders, lemma_difference_near, lemma_exact_power, lemma_product_near, lemma_size,
    lemma_sum_near, two_to, unit,
};
use crate::types::venue::VenueId;

verus! {

/// What is expected of a venue.
#[derive(Debug, Clone, Copy, PartialEq, Eq, Structural)]
pub struct CalibrationEstimate {
    /// The probability that a quote is filled.
    pub fill_probability: Double,
    /// The slippage of aggressive fills, in units of price.
    pub expected_slippage: Double,
    /// The share of submissions that the venue refuses outright.
    pub reject_rate: Double,
}

impl CalibrationEstimate {
    /// What is expected of a venue that is not known: a coin flip, no slippage, no refusals.
    pub open spec fn prior() -> CalibrationEstimate {
        CalibrationEstimate {
            fill_probability: Double::from_bits(HALF),
            expected_slippage: Double::from_bits(ZERO),
            reject_rate: Double::from_bits(ZERO),
        }
    }

    /// The estimate after one more outcome, at the weight `alpha` for the new one.
    pub open spec fn after(
        self,
        c: &Arithmetic,
        alpha: Double,
        outcome: FillOutcome,
        slippage: Option<Double>,
    ) -> CalibrationEstimate {
        let keep = c.minus(Double::from_bits(ONE), alpha);
        CalibrationEstimate {
            fill_probability: match outcome {
                FillOutcome::Filled => c.plus(c.times(self.fill_probability, keep), alpha),
                FillOutcome::Unfilled => c.times(self.fill_probability, keep),
                FillOutcome::Rejected => self.fill_probability,
            },
            reject_rate: match outcome {
                FillOutcome::Rejected => c.plus(c.times(self.reject_rate, keep), alpha),
                _ => c.times(self.reject_rate, keep),
            },
            expected_slippage: match slippage {
                Some(slip) => c.plus(c.times(self.expected_slippage, keep), c.times(alpha, slip)),
                None => self.expected_slippage,
            },
        }
    }
}

impl Default for CalibrationEstimate {
    fn default() -> (r: CalibrationEstimate)
        ensures
            r == CalibrationEstimate::prior(),
    {
        CalibrationEstimate {
            fill_probability: Double::from_bits(HALF),
            expected_slippage: Double::from_bits(ZERO),
            reject_rate: Double::from_bits(ZERO),
        }
    }
}

/// What became of an order. A refusal and an order that found nobody are different signals.
#[derive(Debug, Clone, Copy, PartialEq, Eq, Structural)]
pub enum FillOutcome {
    Filled,
    /// Accepted, but nothing crossed it: a sign of illiquidity.
    Unfilled,
    /// Refused before it could fill: no sign of illiquidity.
    Rejected,
}

/// 0.2
pub const DEFAULT_ALPHA: u64 = 0x3FC9_9999_9999_999A;

/// Keeps an exponential moving average for each venue.
#[derive(Debug)]
pub struct Calibrator {
    stats: VenueMap<CalibrationEstimate>,
    alpha: Double,
}

/// What a calibrator holds.
pub struct CalibrationState {
    /// The weight of the newest outcome.
    pub alpha: Double,
    /// What is known, by venue.
    pub known: VenueMap<CalibrationEstimate>,
}

impl CalibrationState {
    /// What is expected of a venue.
    pub open spec fn expected(self, venue: VenueId) -> CalibrationEstimate {
        match self.known.at(venue) {
            Some(e) => e,
            None => CalibrationEstimate::prior(),
        }
    }

    /// The state after what became of an order at a venue.
    pub open spec fn after(
        self,
        c: &Arithmetic,
        venue: VenueId,
        outcome: FillOutcome,
        slippage: Option<Double>,
    ) -> CalibrationState {
        CalibrationState {
            known: self.known.with(
                venue,
                Some(self.expected(venue).after(c, self.alpha, outcome, slippage)),
            ),
            ..self
        }
    }
}

impl View for Calibrator {
    type V = CalibrationState;

    closed spec fn view(&self) -> CalibrationState {
        CalibrationState { alpha: self.alpha, known: self.stats }
    }
}

impl Calibrator {
    /// Nothing known yet; `alpha`, held within `[0, 1]`, is the weight of the newest outcome.
    pub fn new(alpha: Double) -> (r: Calibrator)
        ensures
            r@ == (CalibrationState {
                alpha: alpha.clamp(Double::from_bits(ZERO), Double::from_bits(ONE)),
                known: VenueMap::empty(),
            }),
    {
        Calibrator {
            stats: VenueMap::new(),
            alpha: alpha.clamp(Double::from_bits(ZERO), Double::from_bits(ONE)),
        }
    }

    /// Records what became of an order at a venue.
    pub fn record_outcome(
        &mut self,
        c: &Arithmetic,
        venue: VenueId,
        outcome: FillOutcome,
        realized_slippage: Option<Double>,
    )
        ensures
            final(self)@ == old(self)@.after(c, venue, outcome, realized_slippage),
    {
        let mut entry = self.estimate(venue);
        let keep = c.minus(Double::from_bits(ONE), self.alpha);
        match outcome {
            FillOutcome::Filled => {
                entry.fill_probability = c.plus(c.times(entry.fill_probability, keep), self.alpha);
                entry.reject_rate = c.times(entry.reject_rate, keep);
            },
            FillOutcome::Unfilled => {
                entry.fill_probability = c.times(entry.fill_probability, keep);
                entry.reject_rate = c.times(entry.reject_rate, keep);
            },
            FillOutcome::Rejected => {
                entry.reject_rate = c.plus(c.times(entry.reject_rate, keep), self.alpha);
            },
        }
        match realized_slippage {
            Some(slip) => {
                entry.expected_slippage =
                c.plus(c.times(entry.expected_slippage, keep), c.times(self.alpha, slip));
            },
            None => {},
        }
        self.stats.set(venue, Some(entry));
    }

    /// What is expected of a venue.
    pub fn estimate(&self, venue: VenueId) -> (r: CalibrationEstimate)
        ensures
            r == self@.expected(venue),
    {
        match self.stats.get(venue) {
            Some(e) => *e,
            None => CalibrationEstimate::default(),
        }
    }
}

impl Default for Calibrator {
    fn default() -> (r: Calibrator)
        ensures
            r@ == (CalibrationState {
                alpha: Double::from_bits(DEFAULT_ALPHA),
                known: VenueMap::empty(),
            }),
    {
        Calibrator::new(Double::from_bits(DEFAULT_ALPHA))
    }
}

/// A run of refusals does not look like an illiquid venue: a refusal leaves the fill
/// probability where it was.
pub proof fn law_rejection_keeps_fill_probability(
    c: &Arithmetic,
    state: CalibrationState,
    venue: VenueId,
    slippage: Option<Double>,
)
    ensures
        state.after(c, venue, FillOutcome::Rejected, slippage).expected(venue).fill_probability
            == state.expected(venue).fill_probability,
{
}

/// What happens at one venue says nothing of another.
pub proof fn law_venues_are_calibrated_apart(
    c: &Arithmetic,
    state: CalibrationState,
    venue: VenueId,
    outcome: FillOutcome,
    slippage: Option<Double>,
    other: VenueId,
)
    requires
        other != venue,
    ensures
        state.after(c, venue, outcome, slippage).expected(other) == state.expected(other),
{
}

/// Whether `after` is `before` and `newest` averaged, with the weight `alpha` for the newest, up
/// to a few roundings.
pub open spec fn is_average(after: Double, before: Double, alpha: Double, newest: int) -> bool {
    gap(
        after.exact() * unit(),
        before.exact() * (unit() - alpha.exact()) + newest * alpha.exact(),
    ) <= 5 * two_to(-53).exact() * unit()
}

/// An outcome counts for `alpha` and what was known before for the rest: a fill counts as one and
/// an order that found nobody as zero, a refusal as one where others count as zero, and slippage
/// as what it was.
pub proof fn law_estimates_are_moving_averages(
    c: &Arithmetic,
    state: CalibrationState,
    venue: VenueId,
    outcome: FillOutcome,
    slippage: Option<Double>,
)
    requires
        c.is_accurate(),
        Double::from_bits(ZERO).le(state.alpha),
        state.alpha.le(Double::from_bits(ONE)),
        state.expected(venue).fill_probability.abs().le(Double::from_bits(ONE)),
        state.expected(venue).reject_rate.abs().le(Double::from_bits(ONE)),
        state.expected(venue).expected_slippage.abs().le(Double::from_bits(ONE)),
        slippage matches Some(slip) ==> slip.abs().le(Double::from_bits(ONE)),
    ensures
        ({
            let before = state.expected(venue);
            let after = state.after(c, venue, outcome, slippage).expected(venue);
            &&& outcome == FillOutcome::Filled ==> is_average(
                after.fill_probability,
                before.fill_probability,
                state.alpha,
                unit(),
            )
            &&& outcome == FillOutcome::Unfilled ==> is_average(
                after.fill_probability,
                before.fill_probability,
                state.alpha,
                0,
            )
            &&& is_average(
                after.reject_rate,
                before.reject_rate,
                state.alpha,
                if outcome == FillOutcome::Rejected {
                    unit()
                } else {
                    0
                },
            )
            &&& match slippage {
                Some(slip) => is_average(
                    after.expected_slippage,
                    before.expected_slippage,
                    state.alpha,
                    slip.exact(),
                ),
                None => after.expected_slippage == before.expected_slippage,
            }
        }),
{
    let before = state.expected(venue);
    lemma_average(c, before.fill_probability, state.alpha);
    lemma_average(c, before.reject_rate, state.alpha);
    match slippage {
        Some(slip) => lemma_weighed_average(c, before.expected_slippage, state.alpha, slip),
        None => {},
    }
}

proof fn lemma_kept(c: &Arithmetic, p: Double, alpha: Double)
    requires
        c.is_accurate(),
        Double::from_bits(ZERO).le(alpha),
        alpha.le(Double::from_bits(ONE)),
        p.abs().le(Double::from_bits(ONE)),
    ensures
        ({
            let t = c.times(p, c.minus(Double::from_bits(ONE), alpha));
            &&& t.is_finite()
            &&& gap(t.exact(), 0) <= unit()
            &&& gap(t.exact() * unit(), p.exact() * (unit() - alpha.exact())) <= 2 * two_to(
                -53,
            ).exact() * unit()
            &&& 0 <= alpha.exact() <= unit()
            &&& gap(p.exact(), 0) <= unit()
            &&& two_to(-52).exact() == 2 * two_to(-53).exact()
            &&& two_to(1).exact() == 2 * unit()
            &&& unit() > 0
            &&& two_to(-53).exact() > 0
        }),
{
    let one = Double::from_bits(ONE);
    let zero = Double::from_bits(ZERO);
    let (u, e) = (unit(), two_to(-53).exact());
    lemma_exact_power(-53);
    lemma_exact_power(0);
    assert(two_to(0) == one);
    law_exact_orders(zero, alpha);
    law_exact_orders(alpha, one);
    lemma_size(p, one);
    lemma_difference_near(c, one, alpha, 0);
    let keep = c.minus(one, alpha);
    lemma_size(keep, one);
    let (x, k, a) = (p.exact(), keep.exact(), alpha.exact());
    assert(gap(x * k, 0) <= u * u) by (nonlinear_arith)
        requires
            -u <= x <= u,
            -u <= k <= u,
    ;
    lemma_product_near(c, p, keep, 0);
    let t = c.times(p, keep);
    lemma_size(t, one);
    assert(gap(x * k, x * (u - a)) <= e * u) by (nonlinear_arith)
        requires
            -u <= x <= u,
            gap(k, u - a) <= e,
            u >= 0,
            e >= 0,
    ;
    assert(2 * e * u == e * u + e * u) by (nonlinear_arith);
}

proof fn lemma_average(c: &Arithmetic, p: Double, alpha: Double)
    requires
        c.is_accurate(),
        Double::from_bits(ZERO).le(alpha),
        alpha.le(Double::from_bits(ONE)),
        p.abs().le(Double::from_bits(ONE)),
    ensures
        ({
            let t = c.times(p, c.minus(Double::from_bits(ONE), alpha));
            &&& is_average(t, p, alpha, 0)
            &&& is_average(c.plus(t, alpha), p, alpha, unit())
        }),
{
    let t = c.times(p, c.minus(Double::from_bits(ONE), alpha));
    lemma_kept(c, p, alpha);
    let (u, e) = (unit(), two_to(-53).exact());
    lemma_sum_near(c, t, alpha, 1);
    let (r, s, a) = (c.plus(t, alpha).exact(), t.exact(), alpha.exact());
    assert(gap(r * u, s * u + u * a) <= 2 * e * u) by (nonlinear_arith)
        requires
            gap(r, s + a) <= 2 * e,
            u >= 0,
    ;
    assert(0 * a == 0) by (nonlinear_arith);
    assert(5 * e * u == 2 * e * u + 2 * e * u + e * u && e * u >= 0) by (nonlinear_arith)
        requires
            e >= 0,
            u >= 0,
    ;
}

proof fn lemma_weighed_average(c: &Arithmetic, p: Double, alpha: Double, slip: Double)
    requires
        c.is_accurate(),
        Double::from_bits(ZERO).le(alpha),
        alpha.le(Double::from_bits(ONE)),
        p.abs().le(Double::from_bits(ONE)),
        slip.abs().le(Double::from_bits(ONE)),
    ensures
        is_average(
            c.plus(
                c.times(p, c.minus(Double::from_bits(ONE), alpha)),
                c.times(alpha, slip),
            ),
            p,
            alpha,
            slip.exact(),
        ),
{
    let one = Double::from_bits(ONE);
    let t = c.times(p, c.minus(one, alpha));
    lemma_kept(c, p, alpha);
    let (u, e) = (unit(), two_to(-53).exact());
    lemma_size(slip, one);
    let (a, x) = (alpha.exact(), slip.exact());
    assert(gap(a * x, 0) <= u * u && a * x == x * a) by (nonlinear_arith)
        requires
            0 <= a <= u,
            -u <= x <= u,
    ;
    assert(two_to(0) == one);
    lemma_product_near(c, alpha, slip, 0);
    let w = c.times(alpha, slip);
    lemma_size(w, one);
    lemma_sum_near(c, t, w, 1);
    let (r, s, v) = (c.plus(t, w).exact(), t.exact(), w.exact());
    assert(gap(r * u, s * u + v * u) <= 2 * e * u) by (nonlinear_arith)
        requires
            gap(r, s + v) <= 2 * e,
            u >= 0,
    ;
    assert(5 * e * u == 2 * e * u + 2 * e * u + e * u) by (nonlinear_arith);
}

} // verus!
