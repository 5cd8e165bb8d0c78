//! Economic releases: a scheduled print against the history of its surprises.
use vstd::prelude::*;
use crate::alpha::config::EconConfig;
use crate::alpha::payload::EconPayload;
use crate::alpha::source;
use crate::alpha::source::AlphaSource;
use crate::alpha::stats;
use crate::double::{Arithmetic, Double, ONE};
use crate::keyed::TextMap;
use crate::types::alpha::{AlphaEventKind, ProbabilityEstimate, RawEvent};
use crate::types::contract::{CanonicalContractId, Direction};

verus! {

/// 1e-6
pub const MIN_SURPRISE_STD: u64 = 0x3EB0_C6F7_A0B5_ED8D;

/// 1e-4
pub const MIN_ESTIMATE_STD: u64 = 0x3F1A_36E2_EB1C_432D;

/// The key of the series that a payload is about.
pub open spec fn series_of(payload: EconPayload) -> Seq<char> {
    match payload.series {
        Some(s) => s@,
        None => payload.contract@,
    }
}

/// Mean and deviation of the series: before the print the consensus with the fitted surprise,
/// or the payload's own where none was fitted; after it the print with what revision remains.
pub open spec fn outlook(payload: EconPayload, fitted: Map<Seq<char>, Double>) -> (Double, Double) {
    let floor = Double::from_bits(MIN_SURPRISE_STD);
    let surprise = if fitted.contains_key(series_of(payload)) {
        fitted[series_of(payload)]
    } else {
        payload.surprise_std
    };
    match payload.actual {
        None => (payload.consensus, surprise.larger(floor)),
        Some(actual) => (actual, payload.post_release_std.larger(floor)),
    }
}

/// How steep the chance is at a bound: the density there.
pub open spec fn steepness(c: &Arithmetic, mean: Double, std: Double, bound: Double) -> Double {
    stats::pdf_of(c, c.over(c.minus(mean, bound), std))
}

/// The upper bound of a range in the unit of the payload: the id holds both bounds in a unit of
/// its own, and the payload holds the lower one. A lower bound of zero says nothing of the unit.
pub open spec fn upper_bound(c: &Arithmetic, threshold: Double, lower: int, upper: i64) -> Option<
    Double,
> {
    if lower == 0 {
        None
    } else {
        Some(c.over(c.times(threshold, c.of_signed(upper)), c.of_signed(lower as i64)))
    }
}

/// The chance that the contract pays, and how steep it is where it is steepest. The direction is
/// the one of the contract's id: beyond the threshold, short of it, or between two bounds. An id
/// that names no direction counts as one beyond the threshold, and so does a range whose upper
/// bound cannot be told.
pub open spec fn priced(
    c: &Arithmetic,
    contract: Seq<char>,
    threshold: Double,
    mean: Double,
    std: Double,
) -> (Double, Double) {
    let beyond = stats::exceeds_of(c, mean, std, threshold);
    let steep = steepness(c, mean, std, threshold);
    match CanonicalContractId::terms(contract) {
        Some((Direction::LessThan, _)) => (c.minus(Double::from_bits(ONE), beyond), steep),
        Some((Direction::Between { upper }, lower)) => match upper_bound(
            c,
            threshold,
            lower,
            upper,
        ) {
            Some(top) => (
                c.minus(beyond, stats::exceeds_of(c, mean, std, top)),
                steep.larger(steepness(c, mean, std, top)),
            ),
            None => (beyond, steep),
        },
        _ => (beyond, steep),
    }
}

fn price(c: &Arithmetic, contract: &String, threshold: Double, mean: Double, std: Double) -> (r: (
    Double,
    Double,
))
    ensures
        r == priced(c, contract@, threshold, mean, std),
{
    let id = CanonicalContractId(contract.clone());
    let beyond = stats::prob_exceeds(c, mean, std, threshold);
    let steep = stats::normal_pdf(c, c.over(c.minus(mean, threshold), std));
    match (id.direction(), id.threshold()) {
        (Some(Direction::LessThan), _) => (c.minus(Double::from_bits(ONE), beyond), steep),
        (Some(Direction::Between { upper }), Some(lower)) => {
            if lower == 0 {
                return (beyond, steep);
            }
            let top = c.over(c.times(threshold, c.of_signed(upper)), c.of_signed(lower));
            let past = stats::prob_exceeds(c, mean, std, top);
            let edge = stats::normal_pdf(c, c.over(c.minus(mean, top), std));
            (c.minus(beyond, past), steep.larger(edge))
        },
        _ => (beyond, steep),
    }
}

/// Prices a scheduled release against the distribution of its surprises.
#[derive(Debug)]
pub struct EconNowcastSource {
    pub name: String,
    pub kinds: Vec<AlphaEventKind>,
    pub correlation_group: Option<String>,
    /// Fitted deviations by series; they override what a payload says of itself.
    pub surprise_std_by_series: TextMap<Double>,
}

impl EconNowcastSource {
    /// A source without fitted deviations.
    pub fn new(name: &str) -> (r: EconNowcastSource)
        ensures
            r.name@ == name@,
            r.kinds@ == seq![AlphaEventKind::EconRelease],
            r.correlation_group is None,
            r.surprise_std_by_series@ == Map::<Seq<char>, Double>::empty(),
    {
        EconNowcastSource {
            name: name.to_owned(),
            kinds: vec![AlphaEventKind::EconRelease],
            correlation_group: None,
            surprise_std_by_series: TextMap::new(),
        }
    }

    /// A source with the fitted deviations of a configuration.
    pub fn from_config(name: &str, config: &EconConfig) -> (r: EconNowcastSource)
        ensures
            r.name@ == name@,
            r.kinds@ == seq![AlphaEventKind::EconRelease],
            r.correlation_group is None,
            r.surprise_std_by_series@ == config.surprise_std_by_series@,
    {
        EconNowcastSource {
            name: name.to_owned(),
            kinds: vec![AlphaEventKind::EconRelease],
            correlation_group: None,
            surprise_std_by_series: config.surprise_std_by_series.copy(),
        }
    }

    /// The source with every estimate marked as one of a group.
    pub fn with_correlation_group(self, group: &str) -> (r: EconNowcastSource)
        ensures
            r.correlation_group matches Some(g) && g@ == group@,
            r == (EconNowcastSource { correlation_group: r.correlation_group, ..self }),
    {
        EconNowcastSource { correlation_group: Some(group.to_owned()), ..self }
    }
}

impl AlphaSource for EconNowcastSource {
    open spec fn named(&self) -> Seq<char> {
        self.name@
    }

    open spec fn kinds(&self) -> Seq<AlphaEventKind> {
        self.kinds@
    }

    open spec fn opinion(&self, c: &Arithmetic, event: &RawEvent) -> Option<ProbabilityEstimate> {
        match event.payload.econ {
            Some(p) => if event.kind != AlphaEventKind::EconRelease {
                None
            } else {
                let (mean, std) = outlook(p, self.surprise_std_by_series@);
                let (probability, steep) = priced(c, p.contract@, p.threshold, mean, std);
                Some(
                    source::decaying(
                        self.name,
                        p.contract,
                        stats::clamp_probability(probability),
                        steep.larger(Double::from_bits(MIN_ESTIMATE_STD)),
                        event.receive_ts,
                        self.correlation_group,
                    ),
                )
            },
            None => None,
        }
    }

    fn name(&self) -> (r: &str) {
        self.name.as_str()
    }

    fn event_kinds(&self) -> (r: &[AlphaEventKind]) {
        self.kinds.as_slice()
    }

    fn on_event(&self, c: &Arithmetic, event: &RawEvent) -> (r: Option<ProbabilityEstimate>) {
        if event.kind != AlphaEventKind::EconRelease {
            return None;
        }
        let payload = match &event.payload.econ {
            Some(p) => p,
            None => return None,
        };
        let series_key = match &payload.series {
            Some(s) => s.as_str(),
            None => payload.contract.as_str(),
        };
        let surprise_std = match self.surprise_std_by_series.get(series_key) {
            Some(std) => *std,
            None => payload.surprise_std,
        };
        let floor = Double::from_bits(MIN_SURPRISE_STD);
        let (mean, std) = match payload.actual {
            None => (payload.consensus, surprise_std.larger(floor)),
            Some(actual) => (actual, payload.post_release_std.larger(floor)),
        };
        let (probability, steep) = price(c, &payload.contract, payload.threshold, mean, std);
        let std_dev = steep.larger(Double::from_bits(MIN_ESTIMATE_STD));
        Some(
            source::decaying_estimate(
                &self.name,
                &payload.contract,
                stats::clamp_probability(probability),
                std_dev,
                event.receive_ts,
                &self.correlation_group,
            ),
        )
    }
}

/// A contract on a fall is priced as the rest of the one on a rise, and both are as steep; one on
/// a range is priced as what lies beyond its lower bound and not beyond its upper one, or as what
/// lies beyond the lower one where the upper one cannot be told.
pub proof fn law_direction_is_priced(
    c: &Arithmetic,
    rise: Seq<char>,
    fall: Seq<char>,
    range: Seq<char>,
    lower: int,
    upper: i64,
    threshold: Double,
    mean: Double,
    std: Double,
)
    requires
        CanonicalContractId::terms(rise) matches Some((Direction::GreaterThan, _)),
        CanonicalContractId::terms(fall) matches Some((Direction::LessThan, _)),
        CanonicalContractId::terms(range) == Some((Direction::Between { upper }, lower)),
    ensures
        ({
            let beyond = stats::exceeds_of(c, mean, std, threshold);
            let steep = steepness(c, mean, std, threshold);
            &&& priced(c, rise, threshold, mean, std) == (beyond, steep)
            &&& priced(c, fall, threshold, mean, std) == (
                c.minus(Double::from_bits(ONE), beyond),
                steep,
            )
            &&& upper_bound(c, threshold, lower, upper) is None <==> lower == 0
            &&& priced(c, range, threshold, mean, std) == match upper_bound(
                c,
                threshold,
                lower,
                upper,
            ) {
                Some(top) => (
                    c.minus(beyond, stats::exceeds_of(c, mean, std, top)),
                    steep.larger(steepness(c, mean, std, top)),
                ),
                None => (beyond, steep),
            }
        }),
{
}

/// Every release that is told is priced: an economic event with its facts always gives an
/// estimate.
pub proof fn law_every_release_is_priced(
    source: &EconNowcastSource,
    c: &Arithmetic,
    event: &RawEvent,
)
    ensures
        source.opinion(c, event) is Some <==> event.kind == AlphaEventKind::EconRelease
            && event.payload.econ is Some,
{
}

} // verus!
