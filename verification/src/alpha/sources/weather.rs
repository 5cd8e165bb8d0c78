//! Weather ensembles: the disagreement of the members is the uncertainty.
use vstd::prelude::*;
use crate::alpha::config::WeatherConfig;
use crate::alpha::payload::WeatherPayload;
use crate::alpha::source;
use crate::alpha::source::AlphaSource;
use crate::alpha::stats;
use crate::double::{Arithmetic, Double, HALF, ONE, ZERO};
use crate::text;
use crate::types::alpha::{AlphaEventKind, ProbabilityEstimate, RawEvent};
use crate::types::contract::{CanonicalContractId, Direction};

verus! {

/// The direction that a payload is about: the one it names, or, where it names none, the one
/// that the contract's id holds. A range whose upper bound the payload leaves out takes the one
/// of the id. A name that is not known is a fault, not a default.
pub open spec fn direction_of(payload: WeatherPayload) -> Option<Direction> {
    match payload.direction {
        Some(name) => if name@ == "gt"@ {
            Some(Direction::GreaterThan)
        } else if name@ == "lt"@ {
            Some(Direction::LessThan)
        } else if name@ == "between"@ {
            match payload.upper_tenths {
                Some(upper) => Some(Direction::Between { upper }),
                None => match CanonicalContractId::terms(payload.contract@) {
                    Some((Direction::Between { upper }, _)) => Some(Direction::Between { upper }),
                    _ => None,
                },
            }
        } else {
            None
        },
        None => match CanonicalContractId::terms(payload.contract@) {
            Some((d, _)) => Some(d),
            None => None,
        },
    }
}

/// The direction that a payload is about.
pub fn resolve_direction(payload: &WeatherPayload) -> (r: Option<Direction>)
    ensures
        r == direction_of(*payload),
{
    match &payload.direction {
        Some(name) => if text::same_text(name.as_str(), "gt") {
            Some(Direction::GreaterThan)
        } else if text::same_text(name.as_str(), "lt") {
            Some(Direction::LessThan)
        } else if text::same_text(name.as_str(), "between") {
            match payload.upper_tenths {
                Some(upper) => Some(Direction::Between { upper }),
                None => match CanonicalContractId(payload.contract.clone()).direction() {
                    Some(Direction::Between { upper }) => Some(Direction::Between { upper }),
                    _ => None,
                },
            }
        } else {
            None
        },
        None => CanonicalContractId(payload.contract.clone()).direction(),
    }
}

/// Whether a forecast makes the contract pay.
pub open spec fn pays(forecast: i64, threshold: i64, direction: Direction) -> bool {
    match direction {
        Direction::GreaterThan => forecast > threshold,
        Direction::LessThan => forecast < threshold,
        Direction::Between { upper } => threshold <= forecast <= upper,
    }
}

/// How many forecasts make the contract pay.
pub open spec fn hits(forecasts: Seq<i64>, threshold: i64, direction: Direction) -> nat
    decreases forecasts.len(),
{
    if forecasts.len() == 0 {
        0
    } else {
        hits(forecasts.drop_last(), threshold, direction) + if pays(
            forecasts.last(),
            threshold,
            direction,
        ) {
            1nat
        } else {
            0nat
        }
    }
}

fn count_hits(forecasts: &Vec<i64>, threshold: i64, direction: Direction) -> (r: u64)
    ensures
        r == hits(forecasts@, threshold, direction),
{
    let mut n: u64 = 0;
    let mut i: usize = 0;
    while i < forecasts.len()
        invariant
            i <= forecasts.len(),
            n == hits(forecasts@.take(i as int), threshold, direction),
            n <= i,
        decreases forecasts.len() - i,
    {
        assert(forecasts@.take(i + 1).drop_last() == forecasts@.take(i as int));
        let f: i64 = forecasts[i];
        let hit = match direction {
            Direction::GreaterThan => f > threshold,
            Direction::LessThan => f < threshold,
            Direction::Between { upper } => f >= threshold && f <= upper,
        };
        if hit {
            n += 1;
        }
        i += 1;
    }
    assert(forecasts@.take(i as int) == forecasts@);
    n
}

/// Prices a contract by the share of ensemble members that make it pay, as a Beta-Binomial
/// posterior: wide where the members disagree or are few, never certain.
#[derive(Debug)]
pub struct WeatherEnsembleSource {
    pub name: String,
    pub kinds: Vec<AlphaEventKind>,
    pub correlation_group: Option<String>,
    /// A floor on the posterior's standard deviation.
    pub min_std_dev: Double,
}

impl WeatherEnsembleSource {
    /// A source without a floor or a group.
    pub fn new(name: &str) -> (r: WeatherEnsembleSource)
        ensures
            r.name@ == name@,
            r.kinds@ == seq![AlphaEventKind::Weather],
            r.correlation_group is None,
            r.min_std_dev == Double::from_bits(ZERO),
    {
        WeatherEnsembleSource {
            name: name.to_owned(),
            kinds: vec![AlphaEventKind::Weather],
            correlation_group: None,
            min_std_dev: Double::from_bits(ZERO),
        }
    }

    /// A source with the floor of a configuration.
    pub fn from_config(name: &str, config: &WeatherConfig) -> (r: WeatherEnsembleSource)
        ensures
            r.name@ == name@,
            r.kinds@ == seq![AlphaEventKind::Weather],
            r.correlation_group is None,
            r.min_std_dev == config.min_std_dev,
    {
        WeatherEnsembleSource {
            name: name.to_owned(),
            kinds: vec![AlphaEventKind::Weather],
            correlation_group: None,
            min_std_dev: config.min_std_dev,
        }
    }

    /// The source with every estimate marked as one of a group.
    pub fn with_correlation_group(self, group: &str) -> (r: WeatherEnsembleSource)
        ensures
            r.correlation_group matches Some(g) && g@ == group@,
            r == (WeatherEnsembleSource { correlation_group: r.correlation_group, ..self }),
    {
        WeatherEnsembleSource { correlation_group: Some(group.to_owned()), ..self }
    }
}

impl AlphaSource for WeatherEnsembleSource {
    open spec fn named(&self) -> Seq<char> {
        self.name@
    }

    open spec fn kinds(&self) -> Seq<AlphaEventKind> {
        self.kinds@
    }

    open spec fn opinion(&self, c: &Arithmetic, event: &RawEvent) -> Option<ProbabilityEstimate> {
        match event.payload.weather {
            Some(p) => if event.kind != AlphaEventKind::Weather
                || p.ensemble_forecast_tenths.len() == 0 {
                None
            } else {
                match direction_of(p) {
                    Some(d) => {
                        let forecasts = p.ensemble_forecast_tenths@;
                        let (probability, std_dev) = stats::posterior_of(
                            c,
                            c.of_count(hits(forecasts, p.threshold_tenths, d) as u64),
                            c.of_count(forecasts.len() as u64),
                            Double::from_bits(HALF),
                            Double::from_bits(HALF),
                        );
                        Some(
                            source::decaying(
                                self.name,
                                p.contract,
                                probability,
                                std_dev.larger(self.min_std_dev),
                                event.receive_ts,
                                self.correlation_group,
                            ),
                        )
                    },
                    None => None,
                }
            },
            None => None,
        }
    }

    fn name(&self) -> (r: &str) {
        self.name.as_str()
    }

    fn event_kinds(&self) -> (r: &[AlphaEventKind]) {
        self.kinds.as_slice()
    }

    fn on_event(&self, c: &Arithmetic, event: &RawEvent) -> (r: Option<ProbabilityEstimate>) {
        if event.kind != AlphaEventKind::Weather {
            return None;
        }
        let payload = match &event.payload.weather {
            Some(p) => p,
            None => return None,
        };
        if payload.ensemble_forecast_tenths.len() == 0 {
            return None;
        }
        let direction = match resolve_direction(payload) {
            Some(d) => d,
            None => return None,
        };
        let n = c.of_count(payload.ensemble_forecast_tenths.len() as u64);
        let successes = c.of_count(
            count_hits(&payload.ensemble_forecast_tenths, payload.threshold_tenths, direction),
        );
        let (probability, std_dev) = stats::beta_binomial_posterior(
            c,
            successes,
            n,
            Double::from_bits(HALF),
            Double::from_bits(HALF),
        );
        Some(
            source::decaying_estimate(
                &self.name,
                &payload.contract,
                probability,
                std_dev.larger(self.min_std_dev),
                event.receive_ts,
                &self.correlation_group,
            ),
        )
    }
}

/// No ensemble is ever reported as certain, however small and unanimous: a probability that is a
/// number lies strictly between 0 and 1.
pub proof fn law_ensemble_is_never_certain(
    source: WeatherEnsembleSource,
    c: &Arithmetic,
    event: RawEvent,
)
    ensures
        source.opinion(c, &event) matches Some(e) ==> (e.probability.is_nan() || (e.probability.gt(
            Double::from_bits(ZERO),
        ) && e.probability.lt(Double::from_bits(ONE)))),
{
}

/// A contract on a rise and one on a fall, at one threshold, never both count a member.
pub proof fn law_no_member_pays_both_ways(forecasts: Seq<i64>, threshold: i64)
    ensures
        hits(forecasts, threshold, Direction::GreaterThan) + hits(
            forecasts,
            threshold,
            Direction::LessThan,
        ) <= forecasts.len(),
    decreases forecasts.len(),
{
    if forecasts.len() > 0 {
        law_no_member_pays_both_ways(forecasts.drop_last(), threshold);
    }
}

/// Where neither the payload nor the contract's id says which way the contract pays, there is no
/// opinion.
pub proof fn law_no_direction_is_silence(
    source: WeatherEnsembleSource,
    c: &Arithmetic,
    event: RawEvent,
)
    requires
        event.payload.weather matches Some(p) && direction_of(p) is None,
    ensures
        source.opinion(c, &event) is None,
{
}

} // verus!
