//! Fees that were charged, held against fees that were expected.
use vstd::prelude::*;
use crate::double::{Arithmetic, Double, ZERO};
use crate::rounding::{
    gap, law_exact_orders, lemma_difference_near, lemma_exact_power, lemma_size, two_to,
};

verus! {

/// The result of one comparison. One mismatch may be rounding; a streak of them is a stale fee
/// schedule.
#[derive(Debug, Clone, Copy, PartialEq, Eq, Structural)]
pub enum FeeCheckOutcome {
    Match,
    Mismatch { modeled: Double, realized: Double, consecutive: u32 },
    PersistentMismatch { modeled: Double, realized: Double, consecutive: u32 },
}

/// Counts mismatches in a row.
#[derive(Debug)]
pub struct FeeVerifier {
    tolerance: Double,
    halt_after: u32,
    consecutive_mismatches: u32,
}

/// What a verifier holds.
pub struct FeeState {
    /// The difference up to which two fees match.
    pub tolerance: Double,
    /// The streak from which a mismatch is persistent.
    pub halt_after: u32,
    /// The mismatches since the last match.
    pub streak: u32,
}

impl View for FeeVerifier {
    type V = FeeState;

    closed spec fn view(&self) -> FeeState {
        FeeState {
            tolerance: self.tolerance,
            halt_after: self.halt_after,
            streak: self.consecutive_mismatches,
        }
    }
}

impl FeeState {
    /// Whether two fees match.
    pub open spec fn matches(self, c: &Arithmetic, modeled: Double, realized: Double) -> bool {
        c.minus(modeled, realized).abs().le(self.tolerance)
    }

    /// The state after a comparison: a match ends the streak.
    pub open spec fn after(self, c: &Arithmetic, modeled: Double, realized: Double) -> FeeState {
        FeeState {
            streak: if self.matches(c, modeled, realized) {
                0
            } else {
                (self.streak + 1) as u32
            },
            ..self
        }
    }

    /// The result of a comparison.
    pub open spec fn outcome(
        self,
        c: &Arithmetic,
        modeled: Double,
        realized: Double,
    ) -> FeeCheckOutcome {
        let consecutive = self.after(c, modeled, realized).streak;
        if self.matches(c, modeled, realized) {
            FeeCheckOutcome::Match
        } else if consecutive >= self.halt_after {
            FeeCheckOutcome::PersistentMismatch { modeled, realized, consecutive }
        } else {
            FeeCheckOutcome::Mismatch { modeled, realized, consecutive }
        }
    }
}

impl FeeVerifier {
    /// No mismatch yet. A negative tolerance counts as none, and a streak is at least one long.
    pub fn new(tolerance: Double, halt_after: u32) -> (r: FeeVerifier)
        ensures
            r@ == (FeeState {
                tolerance: tolerance.larger(Double::from_bits(ZERO)),
                halt_after: if halt_after < 1 {
                    1
                } else {
                    halt_after
                },
                streak: 0,
            }),
    {
        FeeVerifier {
            tolerance: tolerance.larger(Double::from_bits(ZERO)),
            halt_after: if halt_after < 1 {
                1
            } else {
                halt_after
            },
            consecutive_mismatches: 0,
        }
    }

    /// Holds one fill's expected fee against the fee that was charged.
    pub fn record(&mut self, c: &Arithmetic, modeled: Double, realized: Double) -> (r:
        FeeCheckOutcome)
        requires
            old(self)@.matches(c, modeled, realized) || old(self)@.streak < u32::MAX,
        ensures
            r == old(self)@.outcome(c, modeled, realized),
            final(self)@ == old(self)@.after(c, modeled, realized),
    {
        let diff = c.minus(modeled, realized).abs();
        if diff.le(self.tolerance) {
            self.consecutive_mismatches = 0;
            return FeeCheckOutcome::Match;
        }
        self.consecutive_mismatches = self.consecutive_mismatches + 1;
        let consecutive: u32 = self.consecutive_mismatches;
        if consecutive >= self.halt_after {
            FeeCheckOutcome::PersistentMismatch { modeled, realized, consecutive }
        } else {
            FeeCheckOutcome::Mismatch { modeled, realized, consecutive }
        }
    }
}

/// Of one pair of fees, compared again and again from the start of a streak.
pub open spec fn repeated(
    c: &Arithmetic,
    state: FeeState,
    modeled: Double,
    realized: Double,
    times: nat,
) -> FeeState
    decreases times,
{
    if times == 0 {
        state
    } else {
        repeated(c, state, modeled, realized, (times - 1) as nat).after(c, modeled, realized)
    }
}

/// A mismatch turns persistent exactly when it has held for `halt_after` fills in a row.
pub proof fn law_halt_needs_the_whole_streak(
    c: &Arithmetic,
    state: FeeState,
    modeled: Double,
    realized: Double,
    times: nat,
)
    requires
        state.streak == 0,
        !state.matches(c, modeled, realized),
        times < u32::MAX,
    ensures
        repeated(c, state, modeled, realized, times).streak == times,
        repeated(c, state, modeled, realized, times).outcome(
            c,
            modeled,
            realized,
        ) is PersistentMismatch <==> times + 1 >= state.halt_after,
        repeated(c, state, modeled, realized, times).tolerance == state.tolerance,
        repeated(c, state, modeled, realized, times).halt_after == state.halt_after,
    decreases times,
{
    if times > 0 {
        law_halt_needs_the_whole_streak(c, state, modeled, realized, (times - 1) as nat);
    }
}

/// A match ends the streak, however long it was.
pub proof fn law_match_ends_the_streak(
    c: &Arithmetic,
    state: FeeState,
    modeled: Double,
    realized: Double,
)
    requires
        state.matches(c, modeled, realized),
    ensures
        state.after(c, modeled, realized).streak == 0,
        state.outcome(c, modeled, realized) == FeeCheckOutcome::Match,
{
}

/// Two fees match where they lie no further apart than the tolerance, whichever is the larger, and
/// do not where they lie further apart, up to a rounding. What is reported of a mismatch are the
/// two fees and the length of the streak.
pub proof fn law_fees_match_within_the_tolerance(
    c: &Arithmetic,
    state: FeeState,
    modeled: Double,
    realized: Double,
)
    requires
        c.is_accurate(),
        modeled.abs().le(two_to(10)),
        realized.abs().le(two_to(10)),
        state.tolerance.is_finite(),
        state.streak < u32::MAX,
    ensures
        ({
            let apart = gap(modeled.exact(), realized.exact());
            let (most, e) = (state.tolerance.exact(), two_to(-42).exact());
            let out = state.outcome(c, modeled, realized);
            let after = state.after(c, modeled, realized);
            &&& apart + e <= most ==> out == FeeCheckOutcome::Match && after.streak == 0
            &&& most + e < apart ==> after.streak == state.streak + 1 && match out {
                FeeCheckOutcome::Match => false,
                FeeCheckOutcome::Mismatch { modeled: m, realized: r, consecutive } => {
                    &&& m == modeled && r == realized
                    &&& consecutive == state.streak + 1
                    &&& consecutive < state.halt_after
                },
                FeeCheckOutcome::PersistentMismatch { modeled: m, realized: r, consecutive } => {
                    &&& m == modeled && r == realized
                    &&& consecutive == state.streak + 1
                    &&& consecutive >= state.halt_after
                },
            }
            &&& after.tolerance == state.tolerance && after.halt_after == state.halt_after
        }),
{
    let zero = Double::from_bits(ZERO);
    lemma_exact_power(10);
    lemma_exact_power(-42);
    lemma_size(modeled, two_to(10));
    lemma_size(realized, two_to(10));
    lemma_difference_near(c, modeled, realized, 11);
    let d = c.minus(modeled, realized);
    law_exact_orders(zero, d);
    law_exact_orders(d, zero);
    law_exact_orders(zero, d.abs());
    law_exact_orders(d.abs(), state.tolerance);
    law_exact_orders(zero, zero);
    assert(d.abs().exact() == gap(d.exact(), 0)) by {
        assert(d.abs().exact() == d.exact() || d.abs().exact() == -d.exact());
    }
}

} // verus!
