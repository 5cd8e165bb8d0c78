//! Headlines: a directional nudge, never a vote on the level.
use vstd::prelude::*;
use crate::alpha::config::NewsConfig;
use crate::alpha::payload::NewsPayload;
use crate::alpha::source::AlphaSource;
use crate::double::{Arithmetic, Double, HALF, ONE, TWO, ZERO};
use crate::types::alpha::{
    copy_text, AlphaEventKind, EstimateKind, ProbabilityEstimate, RawEvent, StalenessPolicy,
};
use crate::types::contract::CanonicalContractId;

verus! {

/// 0.15
pub const DEFAULT_MIN_RELEVANCE: u64 = 0x3FC3_3333_3333_3333;

/// 3.0
pub const MAX_SHIFT_STD: u64 = 0x4008_0000_0000_0000;

/// Turns a scored headline into a shift in log-odds. The same headline moves a coin flip a lot
/// and a near certainty little.
#[derive(Debug)]
pub struct NewsSentimentSource {
    pub name: String,
    pub kinds: Vec<AlphaEventKind>,
    /// The largest shift, at full polarity and relevance.
    pub sensitivity: Double,
    /// A headline below this relevance is not about the contract.
    pub min_relevance: Double,
    pub correlation_group: Option<String>,
}

impl NewsSentimentSource {
    /// A source with the built-in constants.
    pub fn new(name: &str) -> (r: NewsSentimentSource)
        ensures
            r.name@ == name@,
            r.kinds@ == seq![AlphaEventKind::NewsHeadline],
            r.sensitivity == Double::from_bits(TWO),
            r.min_relevance == Double::from_bits(DEFAULT_MIN_RELEVANCE),
            r.correlation_group is None,
    {
        NewsSentimentSource {
            name: name.to_owned(),
            kinds: vec![AlphaEventKind::NewsHeadline],
            sensitivity: Double::from_bits(TWO),
            min_relevance: Double::from_bits(DEFAULT_MIN_RELEVANCE),
            correlation_group: None,
        }
    }

    /// The source with every estimate marked as one of a group.
    pub fn with_correlation_group(self, group: &str) -> (r: NewsSentimentSource)
        ensures
            r.correlation_group matches Some(g) && g@ == group@,
            r == (NewsSentimentSource { correlation_group: r.correlation_group, ..self }),
    {
        NewsSentimentSource { correlation_group: Some(group.to_owned()), ..self }
    }

    /// A source with the sensitivity of a configuration.
    pub fn from_config(name: &str, config: &NewsConfig) -> (r: NewsSentimentSource)
        ensures
            r.name@ == name@,
            r.kinds@ == seq![AlphaEventKind::NewsHeadline],
            r.sensitivity == config.sensitivity,
            r.min_relevance == Double::from_bits(DEFAULT_MIN_RELEVANCE),
            r.correlation_group is None,
    {
        NewsSentimentSource {
            name: name.to_owned(),
            kinds: vec![AlphaEventKind::NewsHeadline],
            sensitivity: config.sensitivity,
            min_relevance: Double::from_bits(DEFAULT_MIN_RELEVANCE),
            correlation_group: None,
        }
    }

    /// The shift in log-odds of a headline.
    pub open spec fn shift(&self, c: &Arithmetic, p: NewsPayload) -> Double {
        c.times(
            c.times(
                p.polarity.clamp(Double::from_bits(ONE).neg(), Double::from_bits(ONE)),
                p.relevance.clamp(Double::from_bits(ZERO), Double::from_bits(ONE)),
            ),
            self.sensitivity,
        )
    }

    /// The deviation of the shift: large for a headline of little relevance.
    pub open spec fn shift_std(&self, c: &Arithmetic, p: NewsPayload) -> Double {
        c.over(Double::from_bits(HALF), p.relevance.larger(self.min_relevance)).smaller(
            Double::from_bits(MAX_SHIFT_STD),
        )
    }
}

impl AlphaSource for NewsSentimentSource {
    open spec fn named(&self) -> Seq<char> {
        self.name@
    }

    open spec fn kinds(&self) -> Seq<AlphaEventKind> {
        self.kinds@
    }

    open spec fn opinion(&self, c: &Arithmetic, event: &RawEvent) -> Option<ProbabilityEstimate> {
        match event.payload.news {
            Some(p) => if event.kind != AlphaEventKind::NewsHeadline || p.relevance.lt(
                self.min_relevance,
            ) {
                None
            } else {
                Some(
                    ProbabilityEstimate {
                        source: self.name,
                        contract: CanonicalContractId(p.contract),
                        probability: self.shift(c, p),
                        std_dev: self.shift_std(c, p),
                        as_of: event.receive_ts,
                        kind: EstimateKind::LogOddsShift,
                        staleness: StalenessPolicy::Decays,
                        correlation_group: self.correlation_group,
                    },
                )
            },
            None => None,
        }
    }

    fn name(&self) -> (r: &str) {
        self.name.as_str()
    }

    fn event_kinds(&self) -> (r: &[AlphaEventKind]) {
        self.kinds.as_slice()
    }

    fn on_event(&self, c: &Arithmetic, event: &RawEvent) -> (r: Option<ProbabilityEstimate>) {
        if event.kind != AlphaEventKind::NewsHeadline {
            return None;
        }
        let payload = match &event.payload.news {
            Some(p) => p,
            None => return None,
        };
        if payload.relevance.lt(self.min_relevance) {
            return None;
        }
        let one = Double::from_bits(ONE);
        let shift = c.times(
            c.times(
                payload.polarity.clamp(one.neg(), one),
                payload.relevance.clamp(Double::from_bits(ZERO), one),
            ),
            self.sensitivity,
        );
        let std_dev = c.over(
            Double::from_bits(HALF),
            payload.relevance.larger(self.min_relevance),
        ).smaller(Double::from_bits(MAX_SHIFT_STD));
        Some(
            ProbabilityEstimate {
                source: self.name.clone(),
                contract: CanonicalContractId(payload.contract.clone()),
                probability: shift,
                std_dev,
                as_of: event.receive_ts,
                kind: EstimateKind::LogOddsShift,
                staleness: StalenessPolicy::Decays,
                correlation_group: copy_text(&self.correlation_group),
            },
        )
    }
}

/// A headline is taken within bounds: what lies beyond full polarity or full relevance counts as
/// full, and no shift is less certain than the largest deviation allows.
pub proof fn law_headline_is_taken_within_bounds(
    c: &Arithmetic,
    source: NewsSentimentSource,
    p: NewsPayload,
)
    ensures
        ({
            let one = Double::from_bits(ONE);
            let full = NewsPayload { polarity: one, ..p };
            let against = NewsPayload { polarity: one.neg(), ..p };
            let relevant = NewsPayload { relevance: one, ..p };
            let most = Double::from_bits(MAX_SHIFT_STD);
            &&& one.le(p.polarity) ==> source.shift(c, p) == source.shift(c, full)
            &&& p.polarity.le(one.neg()) ==> source.shift(c, p) == source.shift(c, against)
            &&& one.le(p.relevance) ==> source.shift(c, p) == source.shift(c, relevant)
            &&& source.shift_std(c, p).le(most)
        }),
{
}

} // verus!
