//! The topics of the pipeline, one for each hop between stages.
use vstd::prelude::*;
use crate::bus::queue::Bus;
use crate::types::alpha::{FairValue, RawEvent};
use crate::types::market::NormalizedTick;
use crate::types::orders::{OrderAck, OrderIntent};

verus! {

/// Every topic of the pipeline. Only a lost acknowledgement does lasting harm: of the others
/// the next item makes up for a dropped one.
pub struct PipelineBus {
    pub raw_events: Bus<RawEvent>,
    pub ticks: Bus<NormalizedTick>,
    pub fair_values: Bus<FairValue>,
    /// Proposals that have not cleared the risk gate yet.
    pub order_intents: Bus<OrderIntent>,
    /// What venues answered. A drop means that a fill never reaches the positions, and every
    /// risk check after it is wrong.
    pub order_acks: Bus<OrderAck>,
}

#[derive(Debug, Clone, Copy, PartialEq, Eq, Structural)]
pub struct PipelineBusConfig {
    pub raw_events_capacity: usize,
    pub ticks_capacity: usize,
    pub fair_values_capacity: usize,
    pub order_intents_capacity: usize,
    pub order_acks_capacity: usize,
}

impl Default for PipelineBusConfig {
    fn default() -> (r: PipelineBusConfig)
        ensures
            r == (PipelineBusConfig {
                raw_events_capacity: 4_096,
                ticks_capacity: 65_536,
                fair_values_capacity: 16_384,
                order_intents_capacity: 8_192,
                order_acks_capacity: 8_192,
            }),
    {
        PipelineBusConfig {
            raw_events_capacity: 4_096,
            ticks_capacity: 65_536,
            fair_values_capacity: 16_384,
            order_intents_capacity: 8_192,
            order_acks_capacity: 8_192,
        }
    }
}

/// Whether a topic is new: nothing in it, nothing counted, room for `capacity`, at least one.
pub open spec fn is_new<T>(bus: Bus<T>, capacity: usize) -> bool {
    &&& bus.well_formed()
    &&& bus@.items.len() == 0
    &&& bus@.capacity == if capacity == 0 {
        1
    } else {
        capacity as nat
    }
    &&& bus@.dropped == 0
    &&& bus@.published == 0
}

impl PipelineBus {
    /// Empty topics of the given capacities.
    pub fn new(config: PipelineBusConfig) -> (r: PipelineBus)
        requires
            config.raw_events_capacity * 16 <= isize::MAX,
            config.ticks_capacity * 16 <= isize::MAX,
            config.fair_values_capacity * 16 <= isize::MAX,
            config.order_intents_capacity * 16 <= isize::MAX,
            config.order_acks_capacity * 16 <= isize::MAX,
        ensures
            is_new(r.raw_events, config.raw_events_capacity),
            is_new(r.ticks, config.ticks_capacity),
            is_new(r.fair_values, config.fair_values_capacity),
            is_new(r.order_intents, config.order_intents_capacity),
            is_new(r.order_acks, config.order_acks_capacity),
    {
        PipelineBus {
            raw_events: Bus::new(config.raw_events_capacity),
            ticks: Bus::new(config.ticks_capacity),
            fair_values: Bus::new(config.fair_values_capacity),
            order_intents: Bus::new(config.order_intents_capacity),
            order_acks: Bus::new(config.order_acks_capacity),
        }
    }

    /// Whether an acknowledgement was dropped. From there on no position and no profit can be
    /// trusted.
    pub fn integrity_violated(&self) -> (r: bool)
        ensures
            r == (self.order_acks@.dropped > 0),
    {
        self.order_acks.dropped_count() > 0
    }
}

impl Default for PipelineBus {
    fn default() -> (r: PipelineBus)
        ensures
            is_new(r.raw_events, 4_096),
            is_new(r.ticks, 65_536),
            is_new(r.fair_values, 16_384),
            is_new(r.order_intents, 8_192),
            is_new(r.order_acks, 8_192),
    {
        PipelineBus::new(PipelineBusConfig::default())
    }
}

} // verus!
