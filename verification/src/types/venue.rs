//! Venues: what they are, how they settle, what they charge.
use vstd::prelude::*;
use crate::double::{Arithmetic, Double, ONE, ZERO};
use crate::types::validate;
use crate::types::validate::{Fault, ValidationError};

verus! {

/// Every venue that can be traded. `Paper` is the simulated venue, an adapter target
/// like the others.
#[derive(Debug, Clone, Copy, PartialEq, Eq, Hash, PartialOrd, Ord, Structural)]
pub enum VenueId {
    Polymarket,
    Kalshi,
    Paper,
}

impl VenueId {
    /// The place of the venue in the order of venues.
    pub open spec fn rank(self) -> int {
        match self {
            VenueId::Polymarket => 0,
            VenueId::Kalshi => 1,
            VenueId::Paper => 2,
        }
    }

    /// Whether `self` stands before `other` in the order of venues.
    pub fn precedes(self, other: VenueId) -> (r: bool)
        ensures
            r == (self.rank() < other.rank()),
    {
        match (self, other) {
            (VenueId::Polymarket, VenueId::Kalshi) => true,
            (VenueId::Polymarket, VenueId::Paper) => true,
            (VenueId::Kalshi, VenueId::Paper) => true,
            _ => false,
        }
    }

    /// The name of the venue.
    pub open spec fn name(self) -> Seq<char> {
        match self {
            VenueId::Polymarket => "polymarket"@,
            VenueId::Kalshi => "kalshi"@,
            VenueId::Paper => "paper"@,
        }
    }

    /// The venue as text: its name.
    pub fn to_text(&self) -> (r: String)
        ensures
            r@ == self.name(),
    {
        match self {
            VenueId::Polymarket => "polymarket".to_owned(),
            VenueId::Kalshi => "kalshi".to_owned(),
            VenueId::Paper => "paper".to_owned(),
        }
    }
}

/// How a venue clears trades, which decides what "confirmed" means.
#[derive(Debug, Clone, Copy, PartialEq, Eq, Structural)]
pub enum SettlementModel {
    /// Off-chain matching, batched on-chain settlement.
    OffChainMatchOnChainSettle,
    /// A central limit order book with immediate finality at the exchange.
    CentralLimitOrderBook,
    /// In memory, with immediate synthetic finality.
    Simulated,
}

/// 0.0175
pub const KALSHI_MAKER_RATE: u64 = 0x3F91_EB85_1EB8_51EC;

/// 0.07
pub const KALSHI_TAKER_RATE: u64 = 0x3FB1_EB85_1EB8_51EC;

/// 0.0001, a centicent
pub const KALSHI_ROUNDING: u64 = 0x3F1A_36E2_EB1C_432D;

/// 0.0625
pub const POLYMARKET_TAKER_RATE: u64 = 0x3FB0_0000_0000_0000;

/// Fees on `contracts * price * (1 - price)`: they peak at a price of one half.
#[derive(Debug, Clone, Copy, PartialEq, Eq, Structural)]
pub struct FeeModel {
    pub maker_rate: Double,
    pub taker_rate: Double,
    /// Fees round up to the next multiple of this unit; zero rounds nothing.
    pub round_up_to: Double,
}

impl Default for FeeModel {
    /// No fees at all.
    fn default() -> (r: FeeModel)
        ensures
            r == (FeeModel {
                maker_rate: Double::from_bits(ZERO),
                taker_rate: Double::from_bits(ZERO),
                round_up_to: Double::from_bits(ZERO),
            }),
    {
        FeeModel {
            maker_rate: Double::from_bits(ZERO),
            taker_rate: Double::from_bits(ZERO),
            round_up_to: Double::from_bits(ZERO),
        }
    }
}

impl FeeModel {
    /// Kalshi's published schedule: 0.07 taker, 0.0175 maker, up to the centicent.
    #[verifier::allow_in_spec]
    pub fn kalshi_default() -> FeeModel
        returns
            (FeeModel {
                maker_rate: Double::from_bits(KALSHI_MAKER_RATE),
                taker_rate: Double::from_bits(KALSHI_TAKER_RATE),
                round_up_to: Double::from_bits(KALSHI_ROUNDING),
            }),
    {
        FeeModel {
            maker_rate: Double::from_bits(KALSHI_MAKER_RATE),
            taker_rate: Double::from_bits(KALSHI_TAKER_RATE),
            round_up_to: Double::from_bits(KALSHI_ROUNDING),
        }
    }

    /// Polymarket's published schedule: 0.0625 taker, nothing for makers.
    #[verifier::allow_in_spec]
    pub fn polymarket_default() -> FeeModel
        returns
            (FeeModel {
                maker_rate: Double::from_bits(ZERO),
                taker_rate: Double::from_bits(POLYMARKET_TAKER_RATE),
                round_up_to: Double::from_bits(ZERO),
            }),
    {
        FeeModel {
            maker_rate: Double::from_bits(ZERO),
            taker_rate: Double::from_bits(POLYMARKET_TAKER_RATE),
            round_up_to: Double::from_bits(ZERO),
        }
    }

    /// The fee before rounding: `rate * contracts * price * (1 - price)`.
    pub open spec fn raw_fee(
        &self,
        c: &Arithmetic,
        is_maker: bool,
        contracts: Double,
        price: Double,
    ) -> Double {
        let rate = if is_maker {
            self.maker_rate
        } else {
            self.taker_rate
        };
        c.times(
            c.times(c.times(rate, contracts), price),
            c.minus(Double::from_bits(ONE), price),
        )
    }

    /// The fee: the raw one, rounded up to the unit where there is one.
    pub open spec fn fee_of(
        &self,
        c: &Arithmetic,
        is_maker: bool,
        contracts: Double,
        price: Double,
    ) -> Double {
        let raw = self.raw_fee(c, is_maker, contracts, price);
        if self.round_up_to.gt(Double::from_bits(ZERO)) {
            c.times(c.ceil(c.over(raw, self.round_up_to)), self.round_up_to)
        } else {
            raw
        }
    }

    /// The fee for `contracts` at `price`, in units of price.
    pub fn fee(&self, c: &Arithmetic, is_maker: bool, contracts: Double, price: Double) -> (r:
        Double)
        ensures
            r == self.fee_of(c, is_maker, contracts, price),
    {
        let rate = if is_maker {
            self.maker_rate
        } else {
            self.taker_rate
        };
        let raw = c.times(
            c.times(c.times(rate, contracts), price),
            c.minus(Double::from_bits(ONE), price),
        );
        if self.round_up_to.gt(Double::from_bits(ZERO)) {
            c.times(c.ceil(c.over(raw, self.round_up_to)), self.round_up_to)
        } else {
            raw
        }
    }

    /// What one contract costs in fees to get into and out of again at `price`: twice the dearer
    /// fee, since either leg may have to cross the book.
    pub open spec fn round_trip_of(&self, c: &Arithmetic, price: Double) -> Double {
        let one = Double::from_bits(ONE);
        let leg = self.fee_of(c, true, one, price).larger(self.fee_of(c, false, one, price));
        c.plus(leg, leg)
    }

    /// What one contract costs in fees to get into and out of again at `price`.
    pub fn round_trip(&self, c: &Arithmetic, price: Double) -> (r: Double)
        ensures
            r == self.round_trip_of(c, price),
    {
        let one = Double::from_bits(ONE);
        let leg = self.fee(c, true, one, price).larger(self.fee(c, false, one, price));
        c.plus(leg, leg)
    }

    /// The first field that is out of range.
    pub open spec fn fault(&self, c: &Arithmetic) -> Option<Fault> {
        validate::first_fault(
            validate::non_negative_fault(c, "maker_rate"@, self.maker_rate),
            validate::first_fault(
                validate::non_negative_fault(c, "taker_rate"@, self.taker_rate),
                validate::non_negative_fault(c, "round_up_to"@, self.round_up_to),
            ),
        )
    }

    /// Accepts rates and a unit that are finite and not negative.
    pub fn validate(&self, c: &Arithmetic) -> (r: Result<(), ValidationError>)
        ensures
            validate::fault_in(r) == self.fault(c),
            r is Ok <==> validate::is_non_negative(self.maker_rate) && validate::is_non_negative(
                self.taker_rate,
            ) && validate::is_non_negative(self.round_up_to),
    {
        match validate::non_negative(c, "maker_rate", self.maker_rate) {
            Err(e) => return Err(e),
            Ok(_) => {},
        }
        match validate::non_negative(c, "taker_rate", self.taker_rate) {
            Err(e) => return Err(e),
            Ok(_) => {},
        }
        validate::non_negative(c, "round_up_to", self.round_up_to)
    }
}

/// What each venue charges.
#[derive(Debug, Clone, Copy, PartialEq, Eq, Structural)]
pub struct FeeSchedule {
    pub polymarket: FeeModel,
    pub kalshi: FeeModel,
    pub paper: FeeModel,
}

impl FeeSchedule {
    /// The published schedules; the simulated venue is taken to be as dear as Kalshi.
    pub open spec fn usual() -> FeeSchedule {
        FeeSchedule {
            polymarket: FeeModel::polymarket_default(),
            kalshi: FeeModel::kalshi_default(),
            paper: FeeModel::kalshi_default(),
        }
    }

    /// What a venue charges.
    #[verifier::allow_in_spec]
    pub fn at(&self, venue: VenueId) -> FeeModel
        returns
            (match venue {
                VenueId::Polymarket => self.polymarket,
                VenueId::Kalshi => self.kalshi,
                VenueId::Paper => self.paper,
            }),
    {
        match venue {
            VenueId::Polymarket => self.polymarket,
            VenueId::Kalshi => self.kalshi,
            VenueId::Paper => self.paper,
        }
    }
}

impl Default for FeeSchedule {
    fn default() -> (r: FeeSchedule)
        ensures
            r == FeeSchedule::usual(),
    {
        FeeSchedule {
            polymarket: FeeModel::polymarket_default(),
            kalshi: FeeModel::kalshi_default(),
            paper: FeeModel::kalshi_default(),
        }
    }
}

/// Static facts about a venue.
#[derive(Debug, Clone, Copy, PartialEq, Eq, Structural)]
pub struct VenueCapabilities {
    pub venue: VenueId,
    pub settlement: SettlementModel,
    /// The smallest price increment, in probability.
    pub min_tick: Double,
    pub min_order_size: Double,
    pub fee_model: FeeModel,
    /// The request budget kept to, always below the venue's published limit.
    pub rate_limit_per_sec: u32,
}

impl VenueCapabilities {
    /// The first field that is out of range.
    pub open spec fn fault(&self, c: &Arithmetic) -> Option<Fault> {
        validate::first_fault(
            validate::positive_fault(c, "min_tick"@, self.min_tick),
            validate::first_fault(
                validate::positive_fault(c, "min_order_size"@, self.min_order_size),
                validate::first_fault(
                    self.fee_model.fault(c),
                    if self.rate_limit_per_sec == 0 {
                        Some(
                            Fault { field: "rate_limit_per_sec"@, message: "must be nonzero"@ },
                        )
                    } else {
                        None
                    },
                ),
            ),
        )
    }

    /// Accepts a positive tick and order size, a valid fee model and a request budget
    /// that is not zero.
    pub fn validate(&self, c: &Arithmetic) -> (r: Result<(), ValidationError>)
        ensures
            validate::fault_in(r) == self.fault(c),
    {
        match validate::positive(c, "min_tick", self.min_tick) {
            Err(e) => return Err(e),
            Ok(_) => {},
        }
        match validate::positive(c, "min_order_size", self.min_order_size) {
            Err(e) => return Err(e),
            Ok(_) => {},
        }
        match self.fee_model.validate(c) {
            Err(e) => return Err(e),
            Ok(_) => {},
        }
        if self.rate_limit_per_sec == 0 {
            return Err(
                ValidationError {
                    field: "rate_limit_per_sec",
                    message: "must be nonzero".to_owned(),
                },
            );
        }
        Ok(())
    }
}

} // verus!
