//! Order flow: the skew of resting sizes on the reference asset's own book.
use vstd::prelude::*;
use crate::alpha::payload::OrderFlowPayload;
use crate::alpha::source;
use crate::alpha::source::AlphaSource;
use crate::alpha::stats;
use crate::double::{Arithmetic, Double, HALF, ONE};
use crate::types::alpha::{AlphaEventKind, ProbabilityEstimate, RawEvent};

verus! {

/// 0.10
pub const DEFAULT_FLOW_SENSITIVITY: u64 = 0x3FB9_9999_9999_999A;

/// 0.18
pub const DEFAULT_FLOW_STD: u64 = 0x3FC7_0A3D_70A3_D70A;

/// A weak, short-lived directional signal: one modest vote among several.
#[derive(Debug)]
pub struct OrderFlowImbalanceSource {
    pub name: String,
    pub kinds: Vec<AlphaEventKind>,
    pub sensitivity: Double,
    pub std_dev: Double,
    /// Below this much resting size the reading is too thin to trust.
    pub min_total_size: Double,
    pub correlation_group: Option<String>,
}

impl OrderFlowImbalanceSource {
    pub fn new(name: &str) -> (r: OrderFlowImbalanceSource)
        ensures
            r.name@ == name@,
            r.kinds@ == seq![AlphaEventKind::ReferenceAsset],
            r.sensitivity == Double::from_bits(DEFAULT_FLOW_SENSITIVITY),
            r.std_dev == Double::from_bits(DEFAULT_FLOW_STD),
            r.min_total_size == Double::from_bits(ONE),
            r.correlation_group is None,
    {
        OrderFlowImbalanceSource {
            name: name.to_owned(),
            kinds: vec![AlphaEventKind::ReferenceAsset],
            sensitivity: Double::from_bits(DEFAULT_FLOW_SENSITIVITY),
            std_dev: Double::from_bits(DEFAULT_FLOW_STD),
            min_total_size: Double::from_bits(ONE),
            correlation_group: None,
        }
    }

    /// The source with every estimate marked as one of a group.
    pub fn with_correlation_group(self, group: &str) -> (r: OrderFlowImbalanceSource)
        ensures
            r.correlation_group matches Some(g) && g@ == group@,
            r == (OrderFlowImbalanceSource { correlation_group: r.correlation_group, ..self }),
    {
        OrderFlowImbalanceSource { correlation_group: Some(group.to_owned()), ..self }
    }

    /// One half, displaced by the imbalance `(bid - ask) / (bid + ask)`.
    pub open spec fn leaning(&self, c: &Arithmetic, p: OrderFlowPayload) -> Double {
        let total = c.plus(p.bid_size, p.ask_size);
        let imbalance = c.over(c.minus(p.bid_size, p.ask_size), total);
        stats::clamp_probability(
            c.plus(Double::from_bits(HALF), c.times(self.sensitivity, imbalance)),
        )
    }
}

impl AlphaSource for OrderFlowImbalanceSource {
    open spec fn named(&self) -> Seq<char> {
        self.name@
    }

    open spec fn kinds(&self) -> Seq<AlphaEventKind> {
        self.kinds@
    }

    open spec fn opinion(&self, c: &Arithmetic, event: &RawEvent) -> Option<ProbabilityEstimate> {
        match event.payload.order_flow {
            Some(p) => if event.kind != AlphaEventKind::ReferenceAsset || c.plus(
                p.bid_size,
                p.ask_size,
            ).lt(self.min_total_size) {
                None
            } else {
                Some(
                    source::decaying(
                        self.name,
                        p.contract,
                        self.leaning(c, p),
                        self.std_dev,
                        event.receive_ts,
                        self.correlation_group,
                    ),
                )
            },
            None => None,
        }
    }

    fn name(&self) -> (r: &str) {
        self.name.as_str()
    }

    fn event_kinds(&self) -> (r: &[AlphaEventKind]) {
        self.kinds.as_slice()
    }

    fn on_event(&self, c: &Arithmetic, event: &RawEvent) -> (r: Option<ProbabilityEstimate>) {
        if event.kind != AlphaEventKind::ReferenceAsset {
            return None;
        }
        let payload = match &event.payload.order_flow {
            Some(p) => p,
            None => return None,
        };
        let total = c.plus(payload.bid_size, payload.ask_size);
        if total.lt(self.min_total_size) {
            return None;
        }
        let imbalance = c.over(c.minus(payload.bid_size, payload.ask_size), total);
        let probability = stats::clamp_probability(
            c.plus(Double::from_bits(HALF), c.times(self.sensitivity, imbalance)),
        );
        Some(
            source::decaying_estimate(
                &self.name,
                &payload.contract,
                probability,
                self.std_dev,
                event.receive_ts,
                &self.correlation_group,
            ),
        )
    }
}

} // verus!
