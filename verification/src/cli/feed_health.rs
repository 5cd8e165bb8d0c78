//! Feed health: failures in a row, by venue.
use vstd::prelude::*;
use crate::keyed::VenueMap;
use crate::types::venue::VenueId;

verus! {

/// A venue whose feed has failed often enough in a row.
#[derive(Debug, Clone, Copy, PartialEq, Eq, Structural)]
pub struct FeedHealthAlert {
    pub venue: VenueId,
    pub consecutive_failures: u32,
}

/// Counts failures in a row, for each venue apart.
#[derive(Debug)]
pub struct FeedHealthMonitor {
    halt_after: u32,
    streaks: VenueMap<u32>,
}

/// What a monitor holds.
pub struct HealthState {
    /// The streak from which there is an alert.
    pub halt_after: u32,
    /// The failures since the last success, by venue.
    pub streaks: VenueMap<u32>,
}

impl View for FeedHealthMonitor {
    type V = HealthState;

    closed spec fn view(&self) -> HealthState {
        HealthState { halt_after: self.halt_after, streaks: self.streaks }
    }
}

impl HealthState {
    /// The failures of a venue since its last success.
    pub open spec fn streak(self, venue: VenueId) -> u32 {
        match self.streaks.at(venue) {
            Some(n) => n,
            None => 0,
        }
    }

    /// The state after an attempt: a success ends the venue's streak.
    pub open spec fn after(self, venue: VenueId, success: bool) -> HealthState {
        HealthState {
            streaks: self.streaks.with(
                venue,
                Some(
                    if success {
                        0u32
                    } else {
                        (self.streak(venue) + 1) as u32
                    },
                ),
            ),
            ..self
        }
    }

    /// The alert for an attempt: there is one for each failure once the streak is long enough.
    pub open spec fn alert(self, venue: VenueId, success: bool) -> Option<FeedHealthAlert> {
        let consecutive_failures = self.after(venue, success).streak(venue);
        if !success && consecutive_failures >= self.halt_after {
            Some(FeedHealthAlert { venue, consecutive_failures })
        } else {
            None
        }
    }
}

impl FeedHealthMonitor {
    /// No failure yet. A streak is at least one long.
    pub fn new(halt_after: u32) -> (r: FeedHealthMonitor)
        ensures
            r@ == (HealthState {
                halt_after: if halt_after < 1 {
                    1
                } else {
                    halt_after
                },
                streaks: VenueMap::empty(),
            }),
    {
        FeedHealthMonitor {
            halt_after: if halt_after < 1 {
                1
            } else {
                halt_after
            },
            streaks: VenueMap::new(),
        }
    }

    /// Records an attempt to fetch from `venue`.
    pub fn record(&mut self, venue: VenueId, success: bool) -> (r: Option<FeedHealthAlert>)
        requires
            success || old(self)@.streak(venue) < u32::MAX,
        ensures
            r == old(self)@.alert(venue, success),
            final(self)@ == old(self)@.after(venue, success),
    {
        if success {
            self.streaks.set(venue, Some(0));
            return None;
        }
        let before: u32 = match self.streaks.get(venue) {
            Some(n) => *n,
            None => 0,
        };
        let streak: u32 = before + 1;
        self.streaks.set(venue, Some(streak));
        if streak >= self.halt_after {
            Some(FeedHealthAlert { venue, consecutive_failures: streak })
        } else {
            None
        }
    }
}

/// A success ends a venue's streak, and raises no alert.
pub proof fn law_success_ends_the_streak(state: HealthState, venue: VenueId)
    ensures
        state.after(venue, true).streak(venue) == 0,
        state.alert(venue, true) is None,
{
}

/// One venue's failures say nothing of another's.
pub proof fn law_venues_are_watched_apart(
    state: HealthState,
    venue: VenueId,
    success: bool,
    other: VenueId,
)
    requires
        other != venue,
    ensures
        state.after(venue, success).streak(other) == state.streak(other),
        forall|again: bool| #[trigger]
            state.after(venue, success).alert(other, again) == state.alert(other, again),
{
}

/// The state after `times` failures of one venue.
pub open spec fn failing(state: HealthState, venue: VenueId, times: nat) -> HealthState
    decreases times,
{
    if times == 0 {
        state
    } else {
        failing(state, venue, (times - 1) as nat).after(venue, false)
    }
}

/// There is an alert exactly from the failure that makes the streak long enough, and then for
/// each one that follows.
pub proof fn law_alert_needs_the_whole_streak(state: HealthState, venue: VenueId, times: nat)
    requires
        state.streak(venue) == 0,
        times < u32::MAX,
    ensures
        failing(state, venue, times).streak(venue) == times,
        failing(state, venue, times).halt_after == state.halt_after,
        failing(state, venue, times).alert(venue, false) is Some <==> times + 1
            >= state.halt_after,
    decreases times,
{
    if times > 0 {
        law_alert_needs_the_whole_streak(state, venue, (times - 1) as nat);
    }
}

} // verus!
