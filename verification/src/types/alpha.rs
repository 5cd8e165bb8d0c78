//! Alpha: external events, the estimates that sources make of them, and fair values.
use vstd::prelude::*;
use crate::alpha::payload::Payload;
use crate::double::{Arithmetic, Double, Style, ZERO};
use crate::types::contract::CanonicalContractId;
use crate::types::time::Timestamp;
use crate::types::validate;
use crate::types::validate::{Fault, ValidationError};

verus! {

/// The domain an external signal belongs to.
#[derive(Debug, Clone, Copy, PartialEq, Eq, Structural)]
pub enum AlphaEventKind {
    Weather,
    EconRelease,
    NewsHeadline,
    Oracle,
    /// Facts about a market's underlying reference asset: prices, order flow, the move of a
    /// correlated asset.
    ReferenceAsset,
    /// A live state of a sporting contest.
    SportsMatchState,
}

/// The envelope of every external fact.
#[derive(Debug)]
pub struct RawEvent {
    pub source: String,
    pub kind: AlphaEventKind,
    /// When the source says the fact became known, if it says.
    pub publish_ts: Option<Timestamp>,
    /// When the fact was observed.
    pub receive_ts: Timestamp,
    pub payload: Payload,
}

/// How an estimate enters the pool.
#[derive(Debug, Clone, Copy, PartialEq, Eq, Structural)]
pub enum EstimateKind {
    /// An opinion about the probability of YES, pooled with the others.
    Absolute,
    /// A nudge in log-odds, added on top of the pool. A shift of zero changes nothing.
    LogOddsShift,
}

/// How the weight of an estimate changes with its age.
#[derive(Debug, Clone, Copy, PartialEq, Eq, Structural)]
pub enum StalenessPolicy {
    /// It loses weight exponentially.
    Decays,
    /// It keeps its weight: a settled fact does not become less true.
    Permanent,
}

/// One source's opinion on one contract.
#[derive(Debug)]
pub struct ProbabilityEstimate {
    pub source: String,
    pub contract: CanonicalContractId,
    /// The probability of YES, or the shift in log-odds, by `kind`.
    pub probability: Double,
    /// The standard deviation of `probability`, in the same space.
    pub std_dev: Double,
    pub as_of: Timestamp,
    pub kind: EstimateKind,
    pub staleness: StalenessPolicy,
    /// Estimates of one group are not independent evidence of one another.
    pub correlation_group: Option<String>,
}

/// A copy of an optional text.
pub fn copy_text(s: &Option<String>) -> (r: Option<String>)
    ensures
        r == *s,
{
    match s {
        Some(t) => Some(t.clone()),
        None => None,
    }
}

impl Clone for ProbabilityEstimate {
    fn clone(&self) -> (r: Self)
        ensures
            r == *self,
    {
        ProbabilityEstimate {
            source: self.source.clone(),
            contract: self.contract.clone(),
            probability: self.probability,
            std_dev: self.std_dev,
            as_of: self.as_of,
            kind: self.kind,
            staleness: self.staleness,
            correlation_group: copy_text(&self.correlation_group),
        }
    }
}

impl ProbabilityEstimate {
    /// The first field that is out of range.
    pub open spec fn fault(&self, c: &Arithmetic) -> Option<Fault> {
        validate::first_fault(
            match self.kind {
                EstimateKind::Absolute => validate::probability_fault(
                    c,
                    "probability"@,
                    self.probability,
                ),
                EstimateKind::LogOddsShift => validate::finite_fault(
                    c,
                    "probability"@,
                    self.probability,
                ),
            },
            validate::positive_fault(c, "std_dev"@, self.std_dev),
        )
    }

    /// Accepts a probability (or a finite shift) with a positive standard deviation.
    pub fn validate(&self, c: &Arithmetic) -> (r: Result<(), ValidationError>)
        ensures
            validate::fault_in(r) == self.fault(c),
    {
        let first = match self.kind {
            EstimateKind::Absolute => validate::probability(c, "probability", self.probability),
            EstimateKind::LogOddsShift => validate::finite(c, "probability", self.probability),
        };
        match first {
            Err(e) => return Err(e),
            Ok(_) => {},
        }
        validate::positive(c, "std_dev", self.std_dev)
    }
}

/// The one number that strategies use: a probability with its confidence band.
#[derive(Debug)]
pub struct FairValue {
    pub contract: CanonicalContractId,
    pub midpoint: Double,
    pub band_low: Double,
    pub band_high: Double,
    pub as_of: Timestamp,
    pub inputs: Vec<ProbabilityEstimate>,
    /// How many independent sources the inputs amount to.
    pub effective_sample_size: Double,
}

/// 1e-9
pub const BAND_TOLERANCE: u64 = 0x3E11_2E0B_E826_D695;

/// A fair value as plain values.
pub struct FairView {
    pub contract: CanonicalContractId,
    pub midpoint: Double,
    pub band_low: Double,
    pub band_high: Double,
    pub as_of: Timestamp,
    pub inputs: Seq<ProbabilityEstimate>,
    pub effective_sample_size: Double,
}

impl View for FairValue {
    type V = FairView;

    open spec fn view(&self) -> FairView {
        FairView {
            contract: self.contract,
            midpoint: self.midpoint,
            band_low: self.band_low,
            band_high: self.band_high,
            as_of: self.as_of,
            inputs: self.inputs@,
            effective_sample_size: self.effective_sample_size,
        }
    }
}

impl FairView {
    /// The width of the band, never negative.
    pub open spec fn width(self, c: &Arithmetic) -> Double {
        c.minus(self.band_high, self.band_low).larger(Double::from_bits(ZERO))
    }

    /// The fault of a midpoint outside its own band.
    pub open spec fn band_fault(self, c: &Arithmetic) -> Option<Fault> {
        let eps = Double::from_bits(BAND_TOLERANCE);
        if self.midpoint.lt(c.minus(self.band_low, eps)) || self.midpoint.gt(
            c.plus(self.band_high, eps),
        ) {
            Some(
                Fault {
                    field: "midpoint"@,
                    message: "midpoint "@ + c.text_of(Style::Shortest, self.midpoint)
                        + " must lie within ["@ + c.text_of(Style::Shortest, self.band_low) + ", "@
                        + c.text_of(Style::Shortest, self.band_high) + "]"@,
                },
            )
        } else {
            None
        }
    }

    /// The first field that is out of range.
    pub open spec fn fault(self, c: &Arithmetic) -> Option<Fault> {
        validate::first_fault(
            validate::probability_fault(c, "midpoint"@, self.midpoint),
            validate::first_fault(
                validate::probability_fault(c, "band_low"@, self.band_low),
                validate::first_fault(
                    validate::probability_fault(c, "band_high"@, self.band_high),
                    validate::first_fault(
                        self.band_fault(c),
                        validate::non_negative_fault(
                            c,
                            "effective_sample_size"@,
                            self.effective_sample_size,
                        ),
                    ),
                ),
            ),
        )
    }
}

impl FairValue {
    /// The width of the band, never negative.
    pub open spec fn width(&self, c: &Arithmetic) -> Double {
        self@.width(c)
    }

    /// The width of the band, never negative.
    pub fn band_width(&self, c: &Arithmetic) -> (r: Double)
        ensures
            r == self.width(c),
    {
        c.minus(self.band_high, self.band_low).larger(Double::from_bits(ZERO))
    }

    /// Whether `price` lies fully outside the band.
    #[verifier::allow_in_spec]
    pub fn is_outside_band(&self, price: Double) -> bool
        returns
            price.lt(self.band_low) || price.gt(self.band_high),
    {
        price.lt(self.band_low) || price.gt(self.band_high)
    }

    /// The first field that is out of range.
    pub open spec fn fault(&self, c: &Arithmetic) -> Option<Fault> {
        self@.fault(c)
    }

    /// Accepts probabilities with the midpoint inside its band.
    pub fn validate(&self, c: &Arithmetic) -> (r: Result<(), ValidationError>)
        ensures
            validate::fault_in(r) == self.fault(c),
    {
        match validate::probability(c, "midpoint", self.midpoint) {
            Err(e) => return Err(e),
            Ok(_) => {},
        }
        match validate::probability(c, "band_low", self.band_low) {
            Err(e) => return Err(e),
            Ok(_) => {},
        }
        match validate::probability(c, "band_high", self.band_high) {
            Err(e) => return Err(e),
            Ok(_) => {},
        }
        let eps = Double::from_bits(BAND_TOLERANCE);
        if self.midpoint.lt(c.minus(self.band_low, eps)) || self.midpoint.gt(
            c.plus(self.band_high, eps),
        ) {
            let mut message = "midpoint ".to_owned();
            message.append(c.text(Style::Shortest, self.midpoint).as_str());
            message.append(" must lie within [");
            message.append(c.text(Style::Shortest, self.band_low).as_str());
            message.append(", ");
            message.append(c.text(Style::Shortest, self.band_high).as_str());
            message.append("]");
            return Err(ValidationError { field: "midpoint", message });
        }
        validate::non_negative(c, "effective_sample_size", self.effective_sample_size)
    }
}

} // verus!
