//! The sources.
use vstd::prelude::*;
use crate::alpha::source::AlphaSource;
use crate::double::{Arithmetic, Double, ONE, ZERO};
use crate::types::alpha::{
    AlphaEventKind, EstimateKind, ProbabilityEstimate, RawEvent, StalenessPolicy,
};

pub mod correlated_asset;
pub mod econ;
pub mod leanings;
pub mod match_odds;
pub mod news;
pub mod oracle;
pub mod order_flow_imbalance;
pub mod reference_distance;
pub mod spread;
pub mod tennis;
pub mod weather;

verus! {

/// A source says nothing of an event that is not of its kind.
pub proof fn law_irrelevance_is_silence(
    weather: weather::WeatherEnsembleSource,
    econ: econ::EconNowcastSource,
    news: news::NewsSentimentSource,
    oracle: oracle::OracleResolutionSource,
    order_flow: order_flow_imbalance::OrderFlowImbalanceSource,
    reference: reference_distance::ReferenceDistanceSource,
    correlated: correlated_asset::CorrelatedAssetSource,
    tennis: tennis::TennisMatchStateSource,
    c: &Arithmetic,
    event: RawEvent,
)
    ensures
        event.kind != AlphaEventKind::Weather ==> weather.opinion(c, &event) is None,
        event.kind != AlphaEventKind::EconRelease ==> econ.opinion(c, &event) is None,
        event.kind != AlphaEventKind::NewsHeadline ==> news.opinion(c, &event) is None,
        event.kind != AlphaEventKind::Oracle ==> oracle.opinion(c, &event) is None,
        event.kind != AlphaEventKind::ReferenceAsset ==> order_flow.opinion(c, &event) is None,
        event.kind != AlphaEventKind::ReferenceAsset ==> reference.opinion(c, &event) is None,
        event.kind != AlphaEventKind::ReferenceAsset ==> correlated.opinion(c, &event) is None,
        event.kind != AlphaEventKind::SportsMatchState ==> tennis.opinion(c, &event) is None,
{
}

/// Every opinion but an oracle's ages, so that a feed that falls silent loses its say.
pub proof fn law_opinions_age(
    weather: weather::WeatherEnsembleSource,
    econ: econ::EconNowcastSource,
    news: news::NewsSentimentSource,
    order_flow: order_flow_imbalance::OrderFlowImbalanceSource,
    reference: reference_distance::ReferenceDistanceSource,
    correlated: correlated_asset::CorrelatedAssetSource,
    tennis: tennis::TennisMatchStateSource,
    c: &Arithmetic,
    event: RawEvent,
)
    ensures
        weather.opinion(c, &event) matches Some(e) ==> e.staleness == StalenessPolicy::Decays,
        econ.opinion(c, &event) matches Some(e) ==> e.staleness == StalenessPolicy::Decays,
        news.opinion(c, &event) matches Some(e) ==> e.staleness == StalenessPolicy::Decays,
        order_flow.opinion(c, &event) matches Some(e) ==> e.staleness == StalenessPolicy::Decays,
        reference.opinion(c, &event) matches Some(e) ==> e.staleness == StalenessPolicy::Decays,
        correlated.opinion(c, &event) matches Some(e) ==> e.staleness == StalenessPolicy::Decays,
        tennis.opinion(c, &event) matches Some(e) ==> e.staleness == StalenessPolicy::Decays,
{
}

/// A headline moves the pool and does not vote in it: it is the only opinion that is a shift.
pub proof fn law_only_headlines_shift(
    weather: weather::WeatherEnsembleSource,
    econ: econ::EconNowcastSource,
    news: news::NewsSentimentSource,
    oracle: oracle::OracleResolutionSource,
    order_flow: order_flow_imbalance::OrderFlowImbalanceSource,
    reference: reference_distance::ReferenceDistanceSource,
    correlated: correlated_asset::CorrelatedAssetSource,
    tennis: tennis::TennisMatchStateSource,
    c: &Arithmetic,
    event: RawEvent,
)
    ensures
        news.opinion(c, &event) matches Some(e) ==> e.kind == EstimateKind::LogOddsShift,
        weather.opinion(c, &event) matches Some(e) ==> e.kind == EstimateKind::Absolute,
        econ.opinion(c, &event) matches Some(e) ==> e.kind == EstimateKind::Absolute,
        oracle.opinion(c, &event) matches Some(e) ==> e.kind == EstimateKind::Absolute,
        order_flow.opinion(c, &event) matches Some(e) ==> e.kind == EstimateKind::Absolute,
        reference.opinion(c, &event) matches Some(e) ==> e.kind == EstimateKind::Absolute,
        correlated.opinion(c, &event) matches Some(e) ==> e.kind == EstimateKind::Absolute,
        tennis.opinion(c, &event) matches Some(e) ==> e.kind == EstimateKind::Absolute,
{
}

/// Whether an opinion is a shift, or a probability that is neither 0 nor 1.
pub open spec fn is_uncertain(opinion: Option<ProbabilityEstimate>) -> bool {
    opinion matches Some(e) ==> {
        ||| e.kind == EstimateKind::LogOddsShift
        ||| e.probability.is_nan()
        ||| e.probability.gt(Double::from_bits(ZERO)) && e.probability.lt(Double::from_bits(ONE))
    }
}

/// No source is ever certain: a probability that is a number lies strictly between 0 and 1.
pub proof fn law_no_source_is_certain(
    weather: weather::WeatherEnsembleSource,
    econ: econ::EconNowcastSource,
    news: news::NewsSentimentSource,
    oracle: oracle::OracleResolutionSource,
    order_flow: order_flow_imbalance::OrderFlowImbalanceSource,
    reference: reference_distance::ReferenceDistanceSource,
    correlated: correlated_asset::CorrelatedAssetSource,
    tennis: tennis::TennisMatchStateSource,
    c: &Arithmetic,
    event: RawEvent,
)
    ensures
        is_uncertain(weather.opinion(c, &event)),
        is_uncertain(econ.opinion(c, &event)),
        is_uncertain(news.opinion(c, &event)),
        is_uncertain(oracle.opinion(c, &event)),
        is_uncertain(order_flow.opinion(c, &event)),
        is_uncertain(reference.opinion(c, &event)),
        is_uncertain(correlated.opinion(c, &event)),
        is_uncertain(tennis.opinion(c, &event)),
{
    weather::law_ensemble_is_never_certain(weather, c, event);
    tennis::law_match_is_never_certain(tennis, c, event);
}

} // verus!
