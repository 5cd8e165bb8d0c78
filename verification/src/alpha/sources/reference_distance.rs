//! The distance of an asset from its reference price, as a digital option.
use vstd::prelude::*;
use crate::alpha::payload::ReferenceDistancePayload;
use crate::alpha::source;
use crate::alpha::source::AlphaSource;
use crate::alpha::stats;
use crate::double::{Arithmetic, Double, HALF, ONE, ZERO};
use crate::types::alpha::{AlphaEventKind, ProbabilityEstimate, RawEvent};

verus! {

/// 0.3
pub const DEFAULT_MOMENTUM: u64 = 0x3FD3_3333_3333_3333;

/// 0.01
pub const DEFAULT_DISTANCE_STD: u64 = 0x3F84_7AE1_47AE_147B;

/// 1e-9
pub const MIN_SIGMA: u64 = 0x3E11_2E0B_E826_D695;

/// 1e-6
pub const MIN_TAU: u64 = 0x3EB0_C6F7_A0B5_ED8D;

/// The logarithms of the ratios of neighbouring prices.
pub open spec fn log_returns(c: &Arithmetic, prices: Seq<Double>) -> Seq<Double> {
    Seq::new((prices.len() - 1) as nat, |i: int| c.ln(c.over(prices[i + 1], prices[i])))
}

fn returns_of(c: &Arithmetic, prices: &Vec<Double>) -> (r: Vec<Double>)
    requires
        prices.len() >= 1,
    ensures
        r@ == log_returns(c, prices@),
{
    let mut out: Vec<Double> = Vec::new();
    let mut i: usize = 1;
    while i < prices.len()
        invariant
            1 <= i <= prices.len(),
            out.len() == i - 1,
            forall|j: int|
                0 <= j < out.len() ==> #[trigger] out@[j] == c.ln(
                    c.over(prices@[j + 1], prices@[j]),
                ),
        decreases prices.len() - i,
    {
        out.push(c.ln(c.over(prices[i], prices[i - 1])));
        i += 1;
    }
    assert(out@ == log_returns(c, prices@));
    out
}

/// Prices whether an asset finishes above its reference price: the probability that a drifting
/// Brownian motion ends above a level. The same distance is near a coin flip with minutes left
/// and near certain with seconds left.
#[derive(Debug)]
pub struct ReferenceDistanceSource {
    pub name: String,
    pub kinds: Vec<AlphaEventKind>,
    /// How much of the recent trend is taken for drift, from 0 to 1.
    pub momentum_coefficient: Double,
    /// The uncertainty of the z-score, before the sample shrinks it.
    pub base_z_uncertainty: Double,
    /// The floor of the deviation; its ceiling is one half.
    pub min_std_dev: Double,
    pub correlation_group: Option<String>,
}

impl ReferenceDistanceSource {
    pub fn new(name: &str) -> (r: ReferenceDistanceSource)
        ensures
            r.name@ == name@,
            r.kinds@ == seq![AlphaEventKind::ReferenceAsset],
            r.momentum_coefficient == Double::from_bits(DEFAULT_MOMENTUM),
            r.base_z_uncertainty == Double::from_bits(HALF),
            r.min_std_dev == Double::from_bits(DEFAULT_DISTANCE_STD),
            r.correlation_group is None,
    {
        ReferenceDistanceSource {
            name: name.to_owned(),
            kinds: vec![AlphaEventKind::ReferenceAsset],
            momentum_coefficient: Double::from_bits(DEFAULT_MOMENTUM),
            base_z_uncertainty: Double::from_bits(HALF),
            min_std_dev: Double::from_bits(DEFAULT_DISTANCE_STD),
            correlation_group: None,
        }
    }

    /// The source with every estimate marked as one of a group.
    pub fn with_correlation_group(self, group: &str) -> (r: ReferenceDistanceSource)
        ensures
            r.correlation_group matches Some(g) && g@ == group@,
            r == (ReferenceDistanceSource { correlation_group: r.correlation_group, ..self }),
    {
        ReferenceDistanceSource { correlation_group: Some(group.to_owned()), ..self }
    }

    /// Whether a payload can be priced: positive prices and interval, and two prices at least.
    pub open spec fn priceable(p: ReferenceDistancePayload) -> bool {
        let zero = Double::from_bits(ZERO);
        !(p.reference_price.le(zero) || p.current_price.le(zero) || p.tick_interval_secs.le(zero)
            || p.recent_prices.len() < 2)
    }

    /// The mean of the returns.
    pub open spec fn mean_return(c: &Arithmetic, moves: Seq<Double>) -> Double {
        c.over(stats::total(c, moves), c.of_count(moves.len() as u64))
    }

    /// The deviation of the returns, or the floor where there is one return only.
    pub open spec fn return_std(&self, c: &Arithmetic, moves: Seq<Double>) -> Double {
        let n = c.of_count(moves.len() as u64);
        if moves.len() >= 2 {
            c.sqrt(
                c.over(
                    stats::squares(c, moves, ReferenceDistanceSource::mean_return(c, moves)),
                    c.minus(n, Double::from_bits(ONE)),
                ),
            )
        } else {
            self.min_std_dev
        }
    }

    /// How many deviations the asset is expected to finish above its reference price.
    pub open spec fn z_score(&self, c: &Arithmetic, p: ReferenceDistancePayload) -> Double {
        let moves = log_returns(c, p.recent_prices@);
        let floor = Double::from_bits(MIN_SIGMA);
        let sigma = c.over(self.return_std(c, moves), c.sqrt(p.tick_interval_secs)).larger(floor);
        let mu = c.over(
            c.times(self.momentum_coefficient, ReferenceDistanceSource::mean_return(c, moves)),
            p.tick_interval_secs,
        );
        let x = c.ln(c.over(p.current_price, p.reference_price));
        let tau = p.seconds_remaining.larger(Double::from_bits(MIN_TAU));
        let denom = c.times(sigma, c.sqrt(tau)).larger(floor);
        c.over(c.plus(x, c.times(mu, tau)), denom)
    }

    /// The deviation of the probability, by the slope of the distribution at the z-score.
    pub open spec fn spread(&self, c: &Arithmetic, p: ReferenceDistancePayload) -> Double {
        let n = c.of_count((p.recent_prices.len() - 1) as u64);
        c.times(
            stats::pdf_of(c, self.z_score(c, p)),
            c.over(self.base_z_uncertainty, c.sqrt(n)),
        ).clamp(self.min_std_dev, Double::from_bits(HALF))
    }
}

impl AlphaSource for ReferenceDistanceSource {
    open spec fn named(&self) -> Seq<char> {
        self.name@
    }

    open spec fn kinds(&self) -> Seq<AlphaEventKind> {
        self.kinds@
    }

    open spec fn opinion(&self, c: &Arithmetic, event: &RawEvent) -> Option<ProbabilityEstimate> {
        match event.payload.reference_distance {
            Some(p) => if event.kind != AlphaEventKind::ReferenceAsset
                || !ReferenceDistanceSource::priceable(p) {
                None
            } else {
                Some(
                    source::decaying(
                        self.name,
                        p.contract,
                        stats::clamp_probability(stats::cdf_of(c, self.z_score(c, p))),
                        self.spread(c, p),
                        event.receive_ts,
                        self.correlation_group,
                    ),
                )
            },
            None => None,
        }
    }

    fn name(&self) -> (r: &str) {
        self.name.as_str()
    }

    fn event_kinds(&self) -> (r: &[AlphaEventKind]) {
        self.kinds.as_slice()
    }

    fn on_event(&self, c: &Arithmetic, event: &RawEvent) -> (r: Option<ProbabilityEstimate>) {
        if event.kind != AlphaEventKind::ReferenceAsset {
            return None;
        }
        let payload = match &event.payload.reference_distance {
            Some(p) => p,
            None => return None,
        };
        let zero = Double::from_bits(ZERO);
        if payload.reference_price.le(zero) || payload.current_price.le(zero)
            || payload.tick_interval_secs.le(zero) || payload.recent_prices.len() < 2 {
            return None;
        }
        let moves = returns_of(c, &payload.recent_prices);
        let n = c.of_count(moves.len() as u64);
        let mean_return = c.over(stats::sum(c, &moves), n);
        let std_return = if moves.len() >= 2 {
            let variance = c.over(
                stats::sum_of_squares(c, &moves, mean_return),
                c.minus(n, Double::from_bits(ONE)),
            );
            c.sqrt(variance)
        } else {
            self.min_std_dev
        };
        let floor = Double::from_bits(MIN_SIGMA);
        let sigma_per_second = c.over(std_return, c.sqrt(payload.tick_interval_secs)).larger(floor);
        let mu_per_second = c.over(
            c.times(self.momentum_coefficient, mean_return),
            payload.tick_interval_secs,
        );
        let x = c.ln(c.over(payload.current_price, payload.reference_price));
        let tau = payload.seconds_remaining.larger(Double::from_bits(MIN_TAU));
        let denom = c.times(sigma_per_second, c.sqrt(tau)).larger(floor);
        let z = c.over(c.plus(x, c.times(mu_per_second, tau)), denom);
        let probability = stats::clamp_probability(stats::normal_cdf(c, z));
        let z_uncertainty = c.over(self.base_z_uncertainty, c.sqrt(n));
        let std_dev = c.times(stats::normal_pdf(c, z), z_uncertainty).clamp(
            self.min_std_dev,
            Double::from_bits(HALF),
        );
        Some(
            source::decaying_estimate(
                &self.name,
                &payload.contract,
                probability,
                std_dev,
                event.receive_ts,
                &self.correlation_group,
            ),
        )
    }
}

} // verus!
