//! What passes the checks at the boundary, in plain comparisons.
use vstd::prelude::*;
use crate::double::{Arithmetic, Double, ONE, ZERO};
use crate::keyed::VenueMap;
use crate::rounding::{
    gap, law_exact_orders, lemma_difference_near, lemma_exact_power, lemma_sum_near, two_to, unit,
};
use crate::types::alpha::{EstimateKind, FairValue, FairView, ProbabilityEstimate, BAND_TOLERANCE};
use crate::types::position::{Position, DUST_EPSILON};
use crate::types::venue::{FeeModel, VenueCapabilities, VenueId};

verus! {

/// Whether a number lies between 0 and 1.
pub open spec fn in_unit(x: Double) -> bool {
    Double::from_bits(ZERO).le(x) && x.le(Double::from_bits(ONE))
}

/// An estimate is accepted where its deviation is positive and finite and it is a probability, or,
/// for a shift, any finite number.
pub proof fn law_accepted_estimates_are_in_range(c: &Arithmetic, e: ProbabilityEstimate)
    ensures
        ({
            let value = match e.kind {
                EstimateKind::Absolute => in_unit(e.probability),
                EstimateKind::LogOddsShift => e.probability.is_finite(),
            };
            let spread = e.std_dev.is_finite() && Double::from_bits(ZERO).lt(e.std_dev);
            match e.fault(c) {
                Some(fault) => {
                    ||| fault.field == "probability"@ && !value
                    ||| fault.field == "std_dev"@ && value && !spread
                },
                None => value && spread,
            }
        }),
{
}

/// A fair value is accepted where midpoint and band are probabilities, the sample size is finite
/// and not negative, and the midpoint lies in its band, give or take the tolerance.
pub proof fn law_accepted_fair_values_are_in_range(c: &Arithmetic, v: FairView)
    requires
        c.is_accurate(),
    ensures
        v.fault(c) is None ==> {
            &&& in_unit(v.midpoint)
            &&& in_unit(v.band_low)
            &&& in_unit(v.band_high)
            &&& v.effective_sample_size.is_finite()
            &&& Double::from_bits(ZERO).le(v.effective_sample_size)
            &&& v.band_low.exact() - 2 * two_to(-29).exact() <= v.midpoint.exact()
            &&& v.midpoint.exact() <= v.band_high.exact() + 2 * two_to(-29).exact()
        },
        in_unit(v.midpoint) && in_unit(v.band_low) && in_unit(v.band_high)
            && v.effective_sample_size.is_finite() && Double::from_bits(ZERO).le(
            v.effective_sample_size,
        ) && v.band_low.le(v.midpoint) && v.midpoint.le(v.band_high) ==> v.fault(c) is None,
{
    let (zero, one) = (Double::from_bits(ZERO), Double::from_bits(ONE));
    let eps = Double::from_bits(BAND_TOLERANCE);
    lemma_exact_power(0);
    lemma_exact_power(-29);
    lemma_exact_power(-53);
    lemma_exact_power(-52);
    crate::rounding::law_powers_are_ordered(-52, -29);
    law_exact_orders(two_to(-52), two_to(-29));
    assert(two_to(0) == one);
    assert(two_to(-29).bits == 0x3E20_0000_0000_0000);
    law_exact_orders(eps, two_to(-29));
    law_exact_orders(zero, eps);
    crate::rounding::law_powers_are_ordered(-32, -31);
    assert(two_to(-31).bits == 0x3E00_0000_0000_0000);
    law_exact_orders(two_to(-31), eps);
    lemma_exact_power(-31);
    crate::rounding::law_powers_are_ordered(-52, -31);
    law_exact_orders(two_to(-52), two_to(-31));
    crate::rounding::law_powers_are_ordered(-29, 0);
    law_exact_orders(two_to(-29), two_to(0));
    if in_unit(v.midpoint) && in_unit(v.band_low) && in_unit(v.band_high) {
        law_exact_orders(zero, v.band_low);
        law_exact_orders(v.band_low, one);
        law_exact_orders(zero, v.band_high);
        law_exact_orders(v.band_high, one);
        lemma_difference_near(c, v.band_low, eps, 0);
        lemma_sum_near(c, v.band_high, eps, 1);
        let (low, high) = (c.minus(v.band_low, eps), c.plus(v.band_high, eps));
        law_exact_orders(low, v.midpoint);
        law_exact_orders(v.midpoint, high);
        law_exact_orders(v.band_low, v.midpoint);
        law_exact_orders(v.midpoint, v.band_high);
    }
}

/// The width of a band is how far its upper end lies above its lower one, up to a rounding, and a
/// price is outside where it is below the one or above the other.
pub proof fn law_width_is_high_less_low(c: &Arithmetic, v: FairValue, price: Double)
    requires
        c.is_accurate(),
        in_unit(v.band_low),
        in_unit(v.band_high),
        in_unit(price),
    ensures
        ({
            let (low, high) = (v.band_low.exact(), v.band_high.exact());
            &&& gap(
                v.width(c).exact(),
                if high < low {
                    0
                } else {
                    high - low
                },
            ) <= two_to(-53).exact()
            &&& v.is_outside_band(price) <==> price.exact() < low || high < price.exact()
        }),
{
    let (zero, one) = (Double::from_bits(ZERO), Double::from_bits(ONE));
    lemma_exact_power(-53);
    lemma_exact_power(0);
    assert(two_to(0) == one);
    law_exact_orders(zero, v.band_low);
    law_exact_orders(v.band_low, one);
    law_exact_orders(zero, v.band_high);
    law_exact_orders(v.band_high, one);
    law_exact_orders(v.band_low, price);
    law_exact_orders(price, v.band_high);
    lemma_difference_near(c, v.band_high, v.band_low, 0);
    let d = c.minus(v.band_high, v.band_low);
    law_exact_orders(d, zero);
    law_exact_orders(zero, d);
    law_exact_orders(zero, zero);
}

/// A position is accepted where its numbers are finite, its fees are not negative and, unless it is
/// flat but for dust, its average price is a probability.
pub proof fn law_accepted_positions_are_in_range(c: &Arithmetic, p: Position)
    ensures
        p.fault(c) is None <==> {
            &&& p.qty.is_finite()
            &&& p.avg_price.is_finite()
            &&& p.qty.abs().lt(Double::from_bits(DUST_EPSILON)) || in_unit(p.avg_price)
            &&& p.realized_pnl.is_finite()
            &&& p.fees_paid.is_finite()
            &&& Double::from_bits(ZERO).le(p.fees_paid)
        },
{
}

/// A venue is accepted with a positive tick and order size, rates and a rounding unit that are
/// finite and not negative, and a request budget.
pub proof fn law_accepted_venues_are_in_range(c: &Arithmetic, v: VenueCapabilities, m: FeeModel)
    ensures
        m.fault(c) is None <==> {
            &&& m.maker_rate.is_finite() && Double::from_bits(ZERO).le(m.maker_rate)
            &&& m.taker_rate.is_finite() && Double::from_bits(ZERO).le(m.taker_rate)
            &&& m.round_up_to.is_finite() && Double::from_bits(ZERO).le(m.round_up_to)
        },
        v.fault(c) is None <==> {
            &&& v.min_tick.is_finite() && Double::from_bits(ZERO).lt(v.min_tick)
            &&& v.min_order_size.is_finite() && Double::from_bits(ZERO).lt(v.min_order_size)
            &&& v.fee_model.fault(c) is None
            &&& v.rate_limit_per_sec > 0
        },
{
}

/// A map by venue gives back what was put in for a venue, and what it held for the others.
pub proof fn law_venues_are_kept_apart<V>(
    map: VenueMap<V>,
    venue: VenueId,
    value: Option<V>,
    other: VenueId,
)
    ensures
        map.with(venue, value).at(venue) == value,
        other != venue ==> map.with(venue, value).at(other) == map.at(other),
        VenueMap::<V>::empty().at(venue) is None,
{
}

} // verus!
