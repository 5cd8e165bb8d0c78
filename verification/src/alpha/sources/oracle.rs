//! Oracle resolutions: near certainty, but only once nobody can dispute them any more.
use vstd::prelude::*;
use crate::alpha::payload::OraclePayload;
use crate::alpha::source::AlphaSource;
use crate::alpha::stats;
use crate::double::{Arithmetic, Double, ONE, ZERO};
use crate::types::alpha::{
    AlphaEventKind, EstimateKind, ProbabilityEstimate, RawEvent, StalenessPolicy,
};
use crate::types::contract::CanonicalContractId;
use crate::types::time::Timestamp;

verus! {

/// 0.001
pub const FINAL_STD: u64 = 0x3F50_624D_D2F1_A9FC;

/// 0.85
pub const PENDING_YES: u64 = 0x3FEB_3333_3333_3333;

/// 0.15
pub const PENDING_NO: u64 = 0x3FC3_3333_3333_3333;

/// 0.08
pub const PENDING_STD: u64 = 0x3FB4_7AE1_47AE_147B;

/// Whether a resolution is final at a time: its challenge window has closed, or it has none.
pub open spec fn is_final(payload: OraclePayload, now: Timestamp) -> bool {
    match payload.challenge_window_ends_ns {
        Some(ends) => now.0 >= ends,
        None => true,
    }
}

/// Probability, deviation and staleness of an undisputed resolution.
pub open spec fn reading(payload: OraclePayload, now: Timestamp) -> (
    Double,
    Double,
    StalenessPolicy,
) {
    if is_final(payload, now) {
        (
            stats::clamp_probability(
                if payload.resolved_yes {
                    Double::from_bits(ONE)
                } else {
                    Double::from_bits(ZERO)
                },
            ),
            Double::from_bits(FINAL_STD),
            StalenessPolicy::Permanent,
        )
    } else {
        (
            if payload.resolved_yes {
                Double::from_bits(PENDING_YES)
            } else {
                Double::from_bits(PENDING_NO)
            },
            Double::from_bits(PENDING_STD),
            StalenessPolicy::Decays,
        )
    }
}

/// Reads resolutions. A disputed one is no opinion; one still open to challenge a cautious one
/// that ages; only one that closed undisputed is a lasting near certainty.
#[derive(Debug)]
pub struct OracleResolutionSource {
    pub name: String,
    pub kinds: Vec<AlphaEventKind>,
}

impl OracleResolutionSource {
    pub fn new(name: &str) -> (r: OracleResolutionSource)
        ensures
            r.name@ == name@,
            r.kinds@ == seq![AlphaEventKind::Oracle],
    {
        OracleResolutionSource { name: name.to_owned(), kinds: vec![AlphaEventKind::Oracle] }
    }
}

impl AlphaSource for OracleResolutionSource {
    open spec fn named(&self) -> Seq<char> {
        self.name@
    }

    open spec fn kinds(&self) -> Seq<AlphaEventKind> {
        self.kinds@
    }

    open spec fn opinion(&self, c: &Arithmetic, event: &RawEvent) -> Option<ProbabilityEstimate> {
        match event.payload.oracle {
            Some(p) => if event.kind != AlphaEventKind::Oracle || p.disputed {
                None
            } else {
                let (probability, std_dev, staleness) = reading(p, event.receive_ts);
                Some(
                    ProbabilityEstimate {
                        source: self.name,
                        contract: CanonicalContractId(p.contract),
                        probability,
                        std_dev,
                        as_of: event.receive_ts,
                        kind: EstimateKind::Absolute,
                        staleness,
                        correlation_group: None,
                    },
                )
            },
            None => None,
        }
    }

    fn name(&self) -> (r: &str) {
        self.name.as_str()
    }

    fn event_kinds(&self) -> (r: &[AlphaEventKind]) {
        self.kinds.as_slice()
    }

    fn on_event(&self, c: &Arithmetic, event: &RawEvent) -> (r: Option<ProbabilityEstimate>) {
        if event.kind != AlphaEventKind::Oracle {
            return None;
        }
        let payload = match &event.payload.oracle {
            Some(p) => p,
            None => return None,
        };
        if payload.disputed {
            return None;
        }
        let now_ns: i64 = event.receive_ts.as_nanos();
        let finalized = match payload.challenge_window_ends_ns {
            Some(ends) => now_ns >= ends,
            None => true,
        };
        let (probability, std_dev, staleness) = if finalized {
            let p = if payload.resolved_yes {
                Double::from_bits(ONE)
            } else {
                Double::from_bits(ZERO)
            };
            (
                stats::clamp_probability(p),
                Double::from_bits(FINAL_STD),
                StalenessPolicy::Permanent,
            )
        } else {
            let p = if payload.resolved_yes {
                Double::from_bits(PENDING_YES)
            } else {
                Double::from_bits(PENDING_NO)
            };
            (p, Double::from_bits(PENDING_STD), StalenessPolicy::Decays)
        };
        Some(
            ProbabilityEstimate {
                source: self.name.clone(),
                contract: CanonicalContractId(payload.contract.clone()),
                probability,
                std_dev,
                as_of: event.receive_ts,
                kind: EstimateKind::Absolute,
                staleness,
                correlation_group: None,
            },
        )
    }
}

/// A resolution that is final lasts, and is held away from certainty; one that is pending ages
/// and is less sure.
pub proof fn law_only_final_resolutions_last(payload: OraclePayload, now: Timestamp)
    ensures
        ({
            let (p, std, staleness) = reading(payload, now);
            &&& staleness == StalenessPolicy::Permanent <==> is_final(payload, now)
            &&& p.gt(Double::from_bits(ZERO)) && p.lt(Double::from_bits(ONE))
            &&& !is_final(payload, now) ==> std.gt(Double::from_bits(FINAL_STD))
        }),
{
}

/// A disputed resolution is no opinion at all.
pub proof fn law_disputed_resolution_is_silent(
    source: OracleResolutionSource,
    c: &Arithmetic,
    event: RawEvent,
)
    requires
        event.payload.oracle matches Some(p) && p.disputed,
    ensures
        source.opinion(c, &event) is None,
{
}

} // verus!
