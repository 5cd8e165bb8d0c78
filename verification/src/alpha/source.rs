//! The interface of an alpha source.
use vstd::prelude::*;
use crate::alpha::sources::weather::WeatherEnsembleSource;
use crate::double::{Arithmetic, Double};
use crate::types::alpha::{
    AlphaEventKind, EstimateKind, ProbabilityEstimate, RawEvent, StalenessPolicy,
};
use crate::types::contract::CanonicalContractId;
use crate::types::time::Timestamp;

verus! {

/// One domain model that turns external events into estimates. A new one implements this and
/// nothing downstream changes.
pub trait AlphaSource {
    /// The name of the source.
    spec fn named(&self) -> Seq<char>;

    /// The kinds of events that the source reads.
    spec fn kinds(&self) -> Seq<AlphaEventKind>;

    /// What the source makes of an event.
    spec fn opinion(&self, c: &Arithmetic, event: &RawEvent) -> Option<ProbabilityEstimate>;

    /// The name of the source.
    fn name(&self) -> (r: &str)
        ensures
            r@ == self.named(),
    ;

    /// The kinds of events that the source reads.
    fn event_kinds(&self) -> (r: &[AlphaEventKind])
        ensures
            r@ == self.kinds(),
    ;

    /// What the source makes of an event: `None` for one that does not concern it. Silence is
    /// the answer to irrelevance, not a guess.
    fn on_event(&self, c: &Arithmetic, event: &RawEvent) -> (r: Option<ProbabilityEstimate>)
        ensures
            r == self.opinion(c, event),
    ;
}

/// The sources of a pipeline: weather ensembles, and any others.
#[verifier::ext_equal]
pub struct Sources {
    pub weather: Seq<WeatherEnsembleSource>,
    pub others: Seq<Box<dyn AlphaSource>>,
}

/// An absolute estimate that loses weight with age.
pub open spec fn decaying(
    source: String,
    contract: String,
    probability: Double,
    std_dev: Double,
    as_of: Timestamp,
    correlation_group: Option<String>,
) -> ProbabilityEstimate {
    ProbabilityEstimate {
        source,
        contract: CanonicalContractId(contract),
        probability,
        std_dev,
        as_of,
        kind: EstimateKind::Absolute,
        staleness: StalenessPolicy::Decays,
        correlation_group,
    }
}

/// An absolute estimate that loses weight with age.
pub fn decaying_estimate(
    source: &String,
    contract: &String,
    probability: Double,
    std_dev: Double,
    as_of: Timestamp,
    correlation_group: &Option<String>,
) -> (r: ProbabilityEstimate)
    ensures
        r == decaying(*source, *contract, probability, std_dev, as_of, *correlation_group),
{
    ProbabilityEstimate {
        source: source.clone(),
        contract: CanonicalContractId(contract.clone()),
        probability,
        std_dev,
        as_of,
        kind: EstimateKind::Absolute,
        staleness: StalenessPolicy::Decays,
        correlation_group: crate::types::alpha::copy_text(correlation_group),
    }
}

} // verus!
