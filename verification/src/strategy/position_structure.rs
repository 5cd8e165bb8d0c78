//! The state machine that decides what kind of position to hold.
use vstd::prelude::*;
use crate::double::{Arithmetic, Double, HALF, INFINITY, ONE, TWO, ZERO};
use crate::types::time::Timestamp;

verus! {

#[derive(Debug, Clone, Copy, PartialEq, Eq, Structural)]
pub enum PositionStructureState {
    Flat,
    ScanningTemporal,
    HedgedBuilding,
    Rotating,
    NearResolutionHold,
    Unwinding,
    Halted,
}

/// 0.02
pub const DEFAULT_HYSTERESIS: u64 = 0x3F94_7AE1_47AE_147B;

/// 20.0
pub const DEFAULT_TAU_SECS: u64 = 0x4034_0000_0000_0000;

/// 0.97
pub const DEFAULT_P_FLOOR: u64 = 0x3FEF_0A3D_70A3_D70A;

/// 0.03
pub const DEFAULT_BAND_FLOOR: u64 = 0x3F9E_B851_EB85_1EB8;

#[derive(Debug, Clone, Copy, PartialEq, Eq, Structural)]
pub struct SelectorConfig {
    /// A score beyond this, in either direction, opens a scan from `Flat`.
    pub relative_score_entry: Double,
    /// A score within this has decayed.
    pub relative_score_exit: Double,
    /// How far fair value and price must lie apart before `Rotating` may fire.
    pub rotation_hysteresis: Double,
    /// The least time between two transitions before `Rotating` may fire.
    pub min_dwell_ns: i64,
    pub near_resolution_tau_secs: Double,
    pub near_resolution_p_floor: Double,
    /// How wide the band must be for a hedge to be built from `Flat`.
    pub wide_band_floor: Double,
}

impl Default for SelectorConfig {
    fn default() -> (r: SelectorConfig)
        ensures
            r == (SelectorConfig {
                relative_score_entry: Double::from_bits(TWO),
                relative_score_exit: Double::from_bits(HALF),
                rotation_hysteresis: Double::from_bits(DEFAULT_HYSTERESIS),
                min_dwell_ns: 2_000_000_000,
                near_resolution_tau_secs: Double::from_bits(DEFAULT_TAU_SECS),
                near_resolution_p_floor: Double::from_bits(DEFAULT_P_FLOOR),
                wide_band_floor: Double::from_bits(DEFAULT_BAND_FLOOR),
            }),
    {
        SelectorConfig {
            relative_score_entry: Double::from_bits(TWO),
            relative_score_exit: Double::from_bits(HALF),
            rotation_hysteresis: Double::from_bits(DEFAULT_HYSTERESIS),
            min_dwell_ns: 2_000_000_000,
            near_resolution_tau_secs: Double::from_bits(DEFAULT_TAU_SECS),
            near_resolution_p_floor: Double::from_bits(DEFAULT_P_FLOOR),
            wide_band_floor: Double::from_bits(DEFAULT_BAND_FLOOR),
        }
    }
}

/// What the machine is told on one tick.
#[derive(Debug, Clone, Copy, PartialEq, Eq, Structural)]
pub struct StructureSignal {
    pub relative_score: Option<Double>,
    /// The edge of the single market, where there was depth to compute one.
    pub tradable_edge: Option<Double>,
    pub band_width: Double,
    pub fair_value_mid: Double,
    pub market_price: Double,
    pub seconds_remaining: Double,
    /// The probability of the upper outcome.
    pub p_up: Double,
    pub inventory_at_limit: bool,
    pub fresher_edge_elsewhere: bool,
    pub reversal_confirmed: bool,
    pub second_leg_filled: bool,
    pub position_resolved: bool,
    pub rare_loss_guard_tripped: bool,
    pub capital_released: bool,
    pub kill_switch: bool,
    pub feeds_healthy: bool,
    pub now: Timestamp,
}

impl Default for StructureSignal {
    /// No signal: in particular no resolution in sight, and a coin flip.
    fn default() -> (r: StructureSignal)
        ensures
            r == (StructureSignal {
                relative_score: None,
                tradable_edge: None,
                band_width: Double::from_bits(ZERO),
                fair_value_mid: Double::from_bits(ZERO),
                market_price: Double::from_bits(ZERO),
                seconds_remaining: Double::from_bits(INFINITY),
                p_up: Double::from_bits(HALF),
                inventory_at_limit: false,
                fresher_edge_elsewhere: false,
                reversal_confirmed: false,
                second_leg_filled: false,
                position_resolved: false,
                rare_loss_guard_tripped: false,
                capital_released: false,
                kill_switch: false,
                feeds_healthy: false,
                now: Timestamp(0),
            }),
    {
        StructureSignal {
            relative_score: None,
            tradable_edge: None,
            band_width: Double::from_bits(ZERO),
            fair_value_mid: Double::from_bits(ZERO),
            market_price: Double::from_bits(ZERO),
            seconds_remaining: Double::from_bits(INFINITY),
            p_up: Double::from_bits(HALF),
            inventory_at_limit: false,
            fresher_edge_elsewhere: false,
            reversal_confirmed: false,
            second_leg_filled: false,
            position_resolved: false,
            rare_loss_guard_tripped: false,
            capital_released: false,
            kill_switch: false,
            feeds_healthy: false,
            now: Timestamp(0),
        }
    }
}

/// Whether fair value and price lie further apart than the hysteresis.
pub open spec fn crosses(c: &Arithmetic, config: SelectorConfig, s: StructureSignal) -> bool {
    c.minus(s.fair_value_mid, s.market_price).abs().gt(config.rotation_hysteresis)
}

/// Whether enough time has passed since the last transition.
pub open spec fn dwelt(config: SelectorConfig, last: Option<Timestamp>, now: Timestamp) -> bool {
    match last {
        None => true,
        Some(t) => now.age(t) >= config.min_dwell_ns,
    }
}

/// Whether the score is beyond the entry level.
pub open spec fn score_enters(config: SelectorConfig, s: StructureSignal) -> bool {
    match s.relative_score {
        Some(x) => x.abs().gt(config.relative_score_entry),
        None => false,
    }
}

/// Whether resolution is near and one outcome all but sure.
pub open spec fn near_resolution(
    c: &Arithmetic,
    config: SelectorConfig,
    s: StructureSignal,
) -> bool {
    &&& s.seconds_remaining.lt(config.near_resolution_tau_secs)
    &&& s.p_up.larger(c.minus(Double::from_bits(ONE), s.p_up)).gt(config.near_resolution_p_floor)
}

/// Whether there is an edge while the band is wide.
pub open spec fn wide_edge(config: SelectorConfig, s: StructureSignal) -> bool {
    &&& s.tradable_edge matches Some(e) && e.gt(Double::from_bits(ZERO))
    &&& s.band_width.ge(config.wide_band_floor)
}

/// The state that a signal moves to, if it moves at all. A kill switch halts every other state
/// at once.
pub open spec fn next_state(
    c: &Arithmetic,
    config: SelectorConfig,
    state: PositionStructureState,
    last: Option<Timestamp>,
    s: StructureSignal,
) -> Option<PositionStructureState> {
    if s.kill_switch && state != PositionStructureState::Halted {
        Some(PositionStructureState::Halted)
    } else {
        match state {
            PositionStructureState::Halted => if s.feeds_healthy {
                Some(PositionStructureState::Flat)
            } else {
                None
            },
            PositionStructureState::Flat => if score_enters(config, s) {
                Some(PositionStructureState::ScanningTemporal)
            } else if near_resolution(c, config, s) {
                Some(PositionStructureState::NearResolutionHold)
            } else if wide_edge(config, s) {
                Some(PositionStructureState::HedgedBuilding)
            } else if crosses(c, config, s) && dwelt(config, last, s.now) {
                Some(PositionStructureState::Rotating)
            } else {
                None
            },
            PositionStructureState::ScanningTemporal => if s.reversal_confirmed
                && s.second_leg_filled {
                Some(PositionStructureState::HedgedBuilding)
            } else if (match s.relative_score {
                Some(x) => x.abs().lt(config.relative_score_exit),
                None => true,
            }) {
                Some(PositionStructureState::Flat)
            } else {
                None
            },
            PositionStructureState::Rotating => if crosses(c, config, s) {
                if dwelt(config, last, s.now) {
                    Some(PositionStructureState::Rotating)
                } else {
                    None
                }
            } else {
                let score = match s.relative_score {
                    Some(x) => x.abs(),
                    None => Double::from_bits(ZERO),
                };
                let edge_gone = match s.tradable_edge {
                    Some(e) => e.le(Double::from_bits(ZERO)),
                    None => true,
                };
                if score.lt(config.relative_score_exit) && edge_gone {
                    Some(PositionStructureState::Flat)
                } else {
                    None
                }
            },
            PositionStructureState::HedgedBuilding => if s.inventory_at_limit
                || s.fresher_edge_elsewhere {
                Some(PositionStructureState::Unwinding)
            } else {
                None
            },
            PositionStructureState::NearResolutionHold => if s.rare_loss_guard_tripped
                || s.position_resolved {
                Some(PositionStructureState::Unwinding)
            } else {
                None
            },
            PositionStructureState::Unwinding => if s.capital_released {
                Some(PositionStructureState::Flat)
            } else {
                None
            },
        }
    }
}

/// Decides what kind of position to hold, one signal at a time.
#[derive(Debug)]
pub struct PositionStructureSelector {
    state: PositionStructureState,
    config: SelectorConfig,
    last_transition_at: Option<Timestamp>,
}

impl PositionStructureSelector {
    /// The present state.
    pub closed spec fn current(&self) -> PositionStructureState {
        self.state
    }

    /// The configuration.
    pub closed spec fn settings(&self) -> SelectorConfig {
        self.config
    }

    /// When the last transition was, if there was one.
    pub closed spec fn last(&self) -> Option<Timestamp> {
        self.last_transition_at
    }

    /// Flat, with no transition behind it.
    pub fn new(config: SelectorConfig) -> (r: PositionStructureSelector)
        ensures
            r.current() == PositionStructureState::Flat,
            r.settings() == config,
            r.last() is None,
    {
        PositionStructureSelector {
            state: PositionStructureState::Flat,
            config,
            last_transition_at: None,
        }
    }

    /// The present state.
    pub fn state(&self) -> (r: PositionStructureState)
        ensures
            r == self.current(),
    {
        self.state
    }

    fn transition(&mut self, to: PositionStructureState, now: Timestamp)
        ensures
            final(self).current() == to,
            final(self).last() == Some(now),
            final(self).settings() == old(self).settings(),
    {
        self.state = to;
        self.last_transition_at = Some(now);
    }

    fn dwell_clear(&self, now: Timestamp) -> (r: bool)
        ensures
            r == dwelt(self.settings(), self.last(), now),
    {
        match self.last_transition_at {
            None => true,
            Some(t) => now.since(t) >= self.config.min_dwell_ns,
        }
    }

    fn crosses_with_hysteresis(&self, c: &Arithmetic, signal: &StructureSignal) -> (r: bool)
        ensures
            r == crosses(c, self.settings(), *signal),
    {
        c.minus(signal.fair_value_mid, signal.market_price).abs().gt(
            self.config.rotation_hysteresis,
        )
    }

    /// Takes one signal in and returns the state it leads to.
    pub fn step(&mut self, c: &Arithmetic, signal: &StructureSignal) -> (r: PositionStructureState)
        ensures
            final(self).settings() == old(self).settings(),
            r == final(self).current(),
            match next_state(
                c,
                old(self).settings(),
                old(self).current(),
                old(self).last(),
                *signal,
            ) {
                Some(to) => final(self).current() == to && final(self).last() == Some(signal.now),
                None => final(self).current() == old(self).current() && final(self).last() == old(
                    self,
                ).last(),
            },
    {
        if signal.kill_switch && self.state != PositionStructureState::Halted {
            self.transition(PositionStructureState::Halted, signal.now);
            return self.state;
        }
        match self.state {
            PositionStructureState::Halted => {
                if signal.feeds_healthy {
                    self.transition(PositionStructureState::Flat, signal.now);
                }
            },
            PositionStructureState::Flat => {
                let enters = match signal.relative_score {
                    Some(x) => x.abs().gt(self.config.relative_score_entry),
                    None => false,
                };
                let edge = match signal.tradable_edge {
                    Some(e) => e.gt(Double::from_bits(ZERO)),
                    None => false,
                };
                if enters {
                    self.transition(PositionStructureState::ScanningTemporal, signal.now);
                } else if signal.seconds_remaining.lt(self.config.near_resolution_tau_secs)
                    && signal.p_up.larger(c.minus(Double::from_bits(ONE), signal.p_up)).gt(
                    self.config.near_resolution_p_floor,
                ) {
                    self.transition(PositionStructureState::NearResolutionHold, signal.now);
                } else if edge && signal.band_width.ge(self.config.wide_band_floor) {
                    self.transition(PositionStructureState::HedgedBuilding, signal.now);
                } else if self.crosses_with_hysteresis(c, signal) && self.dwell_clear(
                    signal.now,
                ) {
                    self.transition(PositionStructureState::Rotating, signal.now);
                }
            },
            PositionStructureState::ScanningTemporal => {
                let decayed = match signal.relative_score {
                    Some(x) => x.abs().lt(self.config.relative_score_exit),
                    None => true,
                };
                if signal.reversal_confirmed && signal.second_leg_filled {
                    self.transition(PositionStructureState::HedgedBuilding, signal.now);
                } else if decayed {
                    self.transition(PositionStructureState::Flat, signal.now);
                }
            },
            PositionStructureState::Rotating => {
                if self.crosses_with_hysteresis(c, signal) {
                    if self.dwell_clear(signal.now) {
                        self.transition(PositionStructureState::Rotating, signal.now);
                    }
                } else {
                    let score = match signal.relative_score {
                        Some(x) => x.abs(),
                        None => Double::from_bits(ZERO),
                    };
                    let edge_gone = match signal.tradable_edge {
                        Some(e) => e.le(Double::from_bits(ZERO)),
                        None => true,
                    };
                    if score.lt(self.config.relative_score_exit) && edge_gone {
                        self.transition(PositionStructureState::Flat, signal.now);
                    }
                }
            },
            PositionStructureState::HedgedBuilding => {
                if signal.inventory_at_limit || signal.fresher_edge_elsewhere {
                    self.transition(PositionStructureState::Unwinding, signal.now);
                }
            },
            PositionStructureState::NearResolutionHold => {
                if signal.rare_loss_guard_tripped || signal.position_resolved {
                    self.transition(PositionStructureState::Unwinding, signal.now);
                }
            },
            PositionStructureState::Unwinding => {
                if signal.capital_released {
                    self.transition(PositionStructureState::Flat, signal.now);
                }
            },
        }
        self.state
    }
}

/// The kill switch wins from every state that is not halted already, and a halt ends only with
/// healthy feeds, and only in `Flat`.
pub proof fn law_kill_switch_wins(
    c: &Arithmetic,
    config: SelectorConfig,
    state: PositionStructureState,
    last: Option<Timestamp>,
    s: StructureSignal,
)
    ensures
        s.kill_switch && state != PositionStructureState::Halted ==> next_state(
            c,
            config,
            state,
            last,
            s,
        ) == Some(PositionStructureState::Halted),
        state == PositionStructureState::Halted ==> next_state(c, config, state, last, s) == (
        if s.feeds_healthy {
            Some(PositionStructureState::Flat)
        } else {
            None
        }),
{
}

/// `Rotating` fires only across the hysteresis and after the dwell time.
pub proof fn law_rotation_is_guarded(
    c: &Arithmetic,
    config: SelectorConfig,
    state: PositionStructureState,
    last: Option<Timestamp>,
    s: StructureSignal,
)
    requires
        next_state(c, config, state, last, s) == Some(PositionStructureState::Rotating),
    ensures
        crosses(c, config, s),
        dwelt(config, last, s.now),
        state == PositionStructureState::Flat || state == PositionStructureState::Rotating,
{
}

/// A hedge is left only through unwinding, and unwinding only for `Flat`, short of a halt.
pub proof fn law_hedge_is_unwound(
    c: &Arithmetic,
    config: SelectorConfig,
    state: PositionStructureState,
    last: Option<Timestamp>,
    s: StructureSignal,
)
    requires
        !s.kill_switch,
    ensures
        state == PositionStructureState::HedgedBuilding || state
            == PositionStructureState::NearResolutionHold ==> (next_state(
            c,
            config,
            state,
            last,
            s,
        ) matches Some(to) ==> to == PositionStructureState::Unwinding),
        state == PositionStructureState::Unwinding ==> (next_state(
            c,
            config,
            state,
            last,
            s,
        ) matches Some(to) ==> to == PositionStructureState::Flat),
{
}

/// From `Flat`, short of a halt, a score beyond the entry level on either side opens a scan; else
/// an outcome that is all but sure with little time left is held; else a positive edge in a wide
/// band builds a hedge; else fair value and price that lie far enough apart rotate, once the last
/// transition is long enough ago; else nothing moves.
pub proof fn law_flat_is_left_in_this_order(
    c: &Arithmetic,
    config: SelectorConfig,
    last: Option<Timestamp>,
    s: StructureSignal,
)
    requires
        !s.kill_switch,
    ensures
        ({
            let next = next_state(c, config, PositionStructureState::Flat, last, s);
            let scan = s.relative_score matches Some(x) && (config.relative_score_entry.lt(x)
                || config.relative_score_entry.lt(x.neg()));
            let up = config.near_resolution_p_floor.lt(s.p_up);
            let down = config.near_resolution_p_floor.lt(
                c.minus(Double::from_bits(ONE), s.p_up),
            );
            let sure = s.seconds_remaining.lt(config.near_resolution_tau_secs) && (up || down);
            let edge = s.tradable_edge matches Some(e) && Double::from_bits(ZERO).lt(e)
                && config.wide_band_floor.le(s.band_width);
            let d = c.minus(s.fair_value_mid, s.market_price);
            let far = config.rotation_hysteresis.lt(d) || config.rotation_hysteresis.lt(d.neg());
            let rested = last is None || s.now.age(last->0) >= config.min_dwell_ns;
            let positive = Double::from_bits(ZERO).le(config.relative_score_entry)
                && Double::from_bits(ZERO).le(config.rotation_hysteresis);
            positive ==> {
                &&& scan ==> next == Some(PositionStructureState::ScanningTemporal)
                &&& !scan && sure ==> next == Some(PositionStructureState::NearResolutionHold)
                &&& !scan && !sure && edge ==> next == Some(PositionStructureState::HedgedBuilding)
                &&& !scan && !sure && !edge && far && rested ==> next == Some(
                    PositionStructureState::Rotating,
                )
                &&& !scan && !sure && !edge && !(far && rested) ==> next is None
            }
        }),
{
}

/// The direction of a score does not matter in any state: a gap that is too wide and one that is
/// too narrow by as much lead to the same state.
pub proof fn law_direction_of_the_score_does_not_matter(
    c: &Arithmetic,
    config: SelectorConfig,
    state: PositionStructureState,
    last: Option<Timestamp>,
    s: StructureSignal,
    score: Double,
)
    requires
        s.relative_score == Some(score),
    ensures
        next_state(c, config, state, last, s) == next_state(
            c,
            config,
            state,
            last,
            StructureSignal { relative_score: Some(score.neg()), ..s },
        ),
{
    assert(score.neg().abs() == score.abs());
}

/// A scan ends in a hedge where the reversal is confirmed and the second leg filled, else in
/// `Flat` where the score has decayed or is gone, and goes on otherwise.
pub proof fn law_scan_ends_in_a_hedge_or_in_nothing(
    c: &Arithmetic,
    config: SelectorConfig,
    last: Option<Timestamp>,
    s: StructureSignal,
)
    requires
        !s.kill_switch,
    ensures
        ({
            let next = next_state(c, config, PositionStructureState::ScanningTemporal, last, s);
            let exit = config.relative_score_exit;
            let decayed = match s.relative_score {
                Some(x) => x.lt(exit) && x.neg().lt(exit),
                None => true,
            };
            &&& s.reversal_confirmed && s.second_leg_filled ==> next == Some(
                PositionStructureState::HedgedBuilding,
            )
            &&& !(s.reversal_confirmed && s.second_leg_filled) && decayed ==> next == Some(
                PositionStructureState::Flat,
            )
            &&& !(s.reversal_confirmed && s.second_leg_filled) && !decayed ==> next is None
        }),
{
}

/// A rotation fires again across the hysteresis and after the dwell time; it ends where fair value
/// and price are near again, the score has decayed and there is no edge.
pub proof fn law_rotation_ends_when_all_is_quiet(
    c: &Arithmetic,
    config: SelectorConfig,
    last: Option<Timestamp>,
    s: StructureSignal,
)
    requires
        !s.kill_switch,
        Double::from_bits(ZERO).le(config.rotation_hysteresis),
        Double::from_bits(ZERO).lt(config.relative_score_exit),
    ensures
        ({
            let next = next_state(c, config, PositionStructureState::Rotating, last, s);
            let d = c.minus(s.fair_value_mid, s.market_price);
            let far = config.rotation_hysteresis.lt(d) || config.rotation_hysteresis.lt(d.neg());
            let rested = last is None || s.now.age(last->0) >= config.min_dwell_ns;
            let exit = config.relative_score_exit;
            let decayed = match s.relative_score {
                Some(x) => x.lt(exit) && x.neg().lt(exit),
                None => true,
            };
            let no_edge = match s.tradable_edge {
                Some(e) => e.le(Double::from_bits(ZERO)),
                None => true,
            };
            &&& far && rested ==> next == Some(PositionStructureState::Rotating)
            &&& far && !rested ==> next is None
            &&& !far && decayed && no_edge ==> next == Some(PositionStructureState::Flat)
            &&& !far && !(decayed && no_edge) ==> next is None
        }),
{
}

/// A hedge and a hold unwind for their own causes and no other, and what unwinds is flat once its
/// capital is released.
pub proof fn law_each_holding_has_its_own_way_out(
    c: &Arithmetic,
    config: SelectorConfig,
    last: Option<Timestamp>,
    s: StructureSignal,
)
    requires
        !s.kill_switch,
    ensures
        next_state(c, config, PositionStructureState::HedgedBuilding, last, s) is Some
            <==> s.inventory_at_limit || s.fresher_edge_elsewhere,
        next_state(c, config, PositionStructureState::NearResolutionHold, last, s) is Some
            <==> s.rare_loss_guard_tripped || s.position_resolved,
        next_state(c, config, PositionStructureState::Unwinding, last, s) is Some
            <==> s.capital_released,
{
}

} // verus!
