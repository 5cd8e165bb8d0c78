//! Market data: the best quotes of a venue and the depth behind them.
use vstd::prelude::*;
use crate::double::{Arithmetic, Double, ONE, TWO, ZERO};
use crate::rounding::{
    gap, law_exact_orders, lemma_difference_near, lemma_exact_power, lemma_quotient_near,
    lemma_size, lemma_sum_near, two_to, unit,
};
use crate::types::contract::CanonicalContractId;
use crate::types::time::Timestamp;
use crate::types::validate;
use crate::types::validate::{Fault, ValidationError};
use crate::types::venue::VenueId;

verus! {

/// One venue's best bid and ask for one contract. Prices are probabilities.
#[derive(Debug, PartialEq)]
pub struct NormalizedTick {
    pub venue: VenueId,
    pub contract: CanonicalContractId,
    pub bid: Double,
    pub bid_size: Double,
    pub ask: Double,
    pub ask_size: Double,
    /// The venue's own time for this update, if it gave one.
    pub venue_ts: Option<Timestamp>,
    /// When the update was observed. Staleness goes by this one: a venue's clock is not
    /// under control.
    pub receive_ts: Timestamp,
}

impl Clone for NormalizedTick {
    fn clone(&self) -> (r: Self)
        ensures
            r == *self,
    {
        NormalizedTick {
            venue: self.venue,
            contract: self.contract.clone(),
            bid: self.bid,
            bid_size: self.bid_size,
            ask: self.ask,
            ask_size: self.ask_size,
            venue_ts: self.venue_ts,
            receive_ts: self.receive_ts,
        }
    }
}

impl NormalizedTick {
    /// Half way between bid and ask.
    pub open spec fn mid_of(&self, c: &Arithmetic) -> Double {
        c.over(c.plus(self.bid, self.ask), Double::from_bits(TWO))
    }

    /// Half way between bid and ask.
    pub fn mid(&self, c: &Arithmetic) -> (r: Double)
        ensures
            r == self.mid_of(c),
    {
        c.over(c.plus(self.bid, self.ask), Double::from_bits(TWO))
    }

    /// Ask less bid, and zero for a crossed quote.
    pub open spec fn spread_of(&self, c: &Arithmetic) -> Double {
        c.minus(self.ask, self.bid).larger(Double::from_bits(ZERO))
    }

    /// Ask less bid, and zero for a crossed quote.
    pub fn spread(&self, c: &Arithmetic) -> (r: Double)
        ensures
            r == self.spread_of(c),
            r == c.minus(self.ask, self.bid).larger(Double::from_bits(ZERO)),
    {
        c.minus(self.ask, self.bid).larger(Double::from_bits(ZERO))
    }

    /// Whether prices are probabilities and sizes are finite and not negative.
    pub open spec fn is_valid(&self) -> bool {
        &&& validate::is_probability(self.bid)
        &&& validate::is_probability(self.ask)
        &&& validate::is_non_negative(self.bid_size)
        &&& validate::is_non_negative(self.ask_size)
    }

    /// The first field that is out of range.
    pub open spec fn fault(&self, c: &Arithmetic) -> Option<Fault> {
        validate::first_fault(
            validate::probability_fault(c, "bid"@, self.bid),
            validate::first_fault(
                validate::probability_fault(c, "ask"@, self.ask),
                validate::first_fault(
                    validate::non_negative_fault(c, "bid_size"@, self.bid_size),
                    validate::non_negative_fault(c, "ask_size"@, self.ask_size),
                ),
            ),
        )
    }

    /// Refuses a malformed message here, at the parse boundary: a NaN would clear every
    /// check behind it. A size of zero, an empty level, is allowed.
    pub fn validate(&self, c: &Arithmetic) -> (r: Result<(), ValidationError>)
        ensures
            r is Ok <==> self.is_valid(),
            validate::fault_in(r) == self.fault(c),
    {
        match validate::probability(c, "bid", self.bid) {
            Err(e) => return Err(e),
            Ok(_) => {},
        }
        match validate::probability(c, "ask", self.ask) {
            Err(e) => return Err(e),
            Ok(_) => {},
        }
        match validate::non_negative(c, "bid_size", self.bid_size) {
            Err(e) => return Err(e),
            Ok(_) => {},
        }
        validate::non_negative(c, "ask_size", self.ask_size)
    }
}

/// One price level of resting orders.
#[derive(Debug, Clone, Copy, PartialEq, Eq, Structural)]
pub struct DepthLevel {
    pub price: Double,
    pub size: Double,
}

/// A venue's book in depth. Bids stand best (highest) first, asks best (lowest) first;
/// the caller fills them in that order.
#[derive(Debug, Clone, PartialEq)]
pub struct BookDepth {
    pub venue: VenueId,
    pub contract: CanonicalContractId,
    pub bids: Vec<DepthLevel>,
    pub asks: Vec<DepthLevel>,
    pub receive_ts: Timestamp,
}

/// What walking a side of the book gives: the average price, and how much was filled.
#[derive(Debug, Clone, Copy, PartialEq, Eq, Structural)]
pub struct WalkResult {
    pub avg_price: Double,
    pub filled_size: Double,
}

/// How far a walk has come.
pub struct WalkState {
    pub remaining: Double,
    pub notional: Double,
    pub filled: Double,
}

/// The walk through `levels`, each taken as far as the target leaves room.
pub open spec fn walk_state(c: &Arithmetic, levels: Seq<DepthLevel>, target: Double) -> WalkState
    decreases levels.len(),
{
    if levels.len() == 0 {
        WalkState {
            remaining: target,
            notional: Double::from_bits(ZERO),
            filled: Double::from_bits(ZERO),
        }
    } else {
        let s = walk_state(c, levels.drop_last(), target);
        if s.remaining.le(Double::from_bits(ZERO)) {
            s
        } else {
            let take = levels.last().size.smaller(s.remaining);
            WalkState {
                remaining: c.minus(s.remaining, take),
                notional: c.plus(s.notional, c.times(take, levels.last().price)),
                filled: c.plus(s.filled, take),
            }
        }
    }
}

/// The result of a walk: nothing for a target that is not positive, for an empty book, or
/// where nothing was filled.
pub open spec fn walk_result(c: &Arithmetic, levels: Seq<DepthLevel>, target: Double) -> Option<
    WalkResult,
> {
    let s = walk_state(c, levels, target);
    if target.le(Double::from_bits(ZERO)) || levels.len() == 0 || s.filled.le(
        Double::from_bits(ZERO),
    ) {
        None
    } else {
        Some(WalkResult { avg_price: c.over(s.notional, s.filled), filled_size: s.filled })
    }
}

proof fn lemma_walk_stops(c: &Arithmetic, levels: Seq<DepthLevel>, target: Double, i: int)
    requires
        0 <= i <= levels.len(),
        walk_state(c, levels.take(i), target).remaining.le(Double::from_bits(ZERO)),
    ensures
        walk_state(c, levels, target) == walk_state(c, levels.take(i), target),
    decreases levels.len() - i,
{
    if i < levels.len() {
        assert(levels.take(i + 1).drop_last() == levels.take(i));
        lemma_walk_stops(c, levels, target, i + 1);
    } else {
        assert(levels.take(i) == levels);
    }
}

impl BookDepth {
    /// Walks `levels`, best first, up to `target_size`.
    pub fn walk(c: &Arithmetic, levels: &[DepthLevel], target_size: Double) -> (r: Option<
        WalkResult,
    >)
        ensures
            r == walk_result(c, levels@, target_size),
    {
        let zero = Double::from_bits(ZERO);
        if target_size.le(zero) || levels.len() == 0 {
            return None;
        }
        let mut remaining = target_size;
        let mut notional = zero;
        let mut filled = zero;
        let mut i: usize = 0;
        while i < levels.len() && !remaining.le(zero)
            invariant
                i <= levels.len(),
                zero == Double::from_bits(ZERO),
                walk_state(c, levels@.take(i as int), target_size) == (WalkState {
                    remaining,
                    notional,
                    filled,
                }),
            decreases levels.len() - i,
        {
            let level = levels[i];
            assert(levels@.take(i + 1).drop_last() == levels@.take(i as int));
            let take = level.size.smaller(remaining);
            notional = c.plus(notional, c.times(take, level.price));
            filled = c.plus(filled, take);
            remaining = c.minus(remaining, take);
            i += 1;
        }
        proof {
            if remaining.le(zero) {
                lemma_walk_stops(c, levels@, target_size, i as int);
            } else {
                assert(levels@.take(i as int) == levels@);
            }
        }
        if filled.le(zero) {
            return None;
        }
        Some(WalkResult { avg_price: c.over(notional, filled), filled_size: filled })
    }

    /// Walks the asks.
    pub fn walk_asks(&self, c: &Arithmetic, target_size: Double) -> (r: Option<WalkResult>)
        ensures
            r == walk_result(c, self.asks@, target_size),
    {
        BookDepth::walk(c, self.asks.as_slice(), target_size)
    }

    /// Walks the bids.
    pub fn walk_bids(&self, c: &Arithmetic, target_size: Double) -> (r: Option<WalkResult>)
        ensures
            r == walk_result(c, self.bids@, target_size),
    {
        BookDepth::walk(c, self.bids.as_slice(), target_size)
    }
}

/// How much a walk takes of a level.
pub open spec fn taken(c: &Arithmetic, levels: Seq<DepthLevel>, target: Double, i: int) -> Double {
    let remaining = walk_state(c, levels.take(i), target).remaining;
    if remaining.le(Double::from_bits(ZERO)) {
        Double::from_bits(ZERO)
    } else {
        levels[i].size.smaller(remaining)
    }
}

/// A walk takes the best first: a level that it takes from, and one of which it leaves something,
/// stand in this order. So where asks ascend nothing cheaper is left behind than what was taken,
/// and where bids descend nothing dearer.
pub proof fn law_walk_takes_the_best_first(
    c: &Arithmetic,
    levels: Seq<DepthLevel>,
    target: Double,
    took: int,
    left: int,
)
    requires
        c.is_ieee(),
        0 <= took < levels.len(),
        0 <= left < levels.len(),
        levels[left].size.is_finite(),
        taken(c, levels, target, took).gt(Double::from_bits(ZERO)),
        taken(c, levels, target, left) != levels[left].size,
    ensures
        took <= left,
        (forall|i: int, j: int|
            0 <= i <= j < levels.len() ==> (#[trigger] levels[i]).price.le(
                (#[trigger] levels[j]).price,
            )) ==> levels[took].price.le(levels[left].price),
        (forall|i: int, j: int|
            0 <= i <= j < levels.len() ==> (#[trigger] levels[i]).price.ge(
                (#[trigger] levels[j]).price,
            )) ==> levels[took].price.ge(levels[left].price),
{
    if left < took {
        let zero = Double::from_bits(ZERO);
        let before = walk_state(c, levels.take(left), target);
        let after = walk_state(c, levels.take(left + 1), target);
        let upto = levels.take(took);
        assert(upto.take(left) =~= levels.take(left));
        assert(upto.take(left + 1) =~= levels.take(left + 1));
        assert(levels.take(left + 1).drop_last() =~= levels.take(left));
        assert(levels.take(left + 1).last() == levels[left]);
        if before.remaining.le(zero) {
            lemma_walk_stops(c, upto, target, left);
        } else {
            assert(levels[left].size.smaller(before.remaining) == before.remaining);
            assert(before.remaining.is_finite());
            assert(c.minus(before.remaining, before.remaining).is_zero());
            assert(after.remaining.le(zero));
            lemma_walk_stops(c, upto, target, left + 1);
        }
        assert(false);
    }
}

/// A quote is accepted exactly where both prices lie between 0 and 1 and neither size is negative
/// or infinite, and what is named first in a refusal is out of range.
pub proof fn law_accepted_quotes_are_in_range(c: &Arithmetic, tick: NormalizedTick)
    ensures
        ({
            let (zero, one) = (Double::from_bits(ZERO), Double::from_bits(ONE));
            let bid = zero.le(tick.bid) && tick.bid.le(one);
            let ask = zero.le(tick.ask) && tick.ask.le(one);
            let bid_size = tick.bid_size.is_finite() && zero.le(tick.bid_size);
            let ask_size = tick.ask_size.is_finite() && zero.le(tick.ask_size);
            &&& tick.is_valid() <==> bid && ask && bid_size && ask_size
            &&& match tick.fault(c) {
                Some(fault) => {
                    ||| fault.field == "bid"@ && !bid
                    ||| fault.field == "ask"@ && bid && !ask
                    ||| fault.field == "bid_size"@ && bid && ask && !bid_size
                    ||| fault.field == "ask_size"@ && bid && ask && bid_size && !ask_size
                },
                None => bid && ask && bid_size && ask_size,
            }
        }),
{
}

/// The middle of a quote lies half way between its sides, up to a rounding.
pub proof fn law_mid_is_half_way(c: &Arithmetic, tick: NormalizedTick)
    requires
        c.is_accurate(),
        tick.is_valid(),
    ensures
        gap(2 * tick.mid_of(c).exact(), tick.bid.exact() + tick.ask.exact()) <= 4 * two_to(
            -53,
        ).exact(),
{
    let (one, two) = (Double::from_bits(ONE), Double::from_bits(TWO));
    let u = unit();
    lemma_exact_power(-53);
    lemma_exact_power(0);
    assert(two_to(0) == one && two_to(1) == two);
    lemma_size(tick.bid, one);
    lemma_size(tick.ask, one);
    lemma_sum_near(c, tick.bid, tick.ask, 1);
    let sum = c.plus(tick.bid, tick.ask);
    lemma_size(sum, two);
    law_exact_orders(two, two);
    let (s, d) = (sum.exact(), two.exact());
    assert(gap(s * u, 0) <= u * gap(d, 0)) by (nonlinear_arith)
        requires
            -2 * u <= s <= 2 * u,
            d == 2 * u,
            u >= 0,
    ;
    lemma_quotient_near(c, sum, two, 0);
    let (m, e) = (c.over(sum, two).exact(), two_to(-53).exact());
    assert(gap(2 * m, s) <= 2 * e) by (nonlinear_arith)
        requires
            gap(m * d, s * u) <= e * gap(d, 0),
            d == 2 * u,
            u > 0,
    ;
}

/// The spread of a quote is how far its ask lies above its bid, up to a rounding; a crossed quote
/// has none.
pub proof fn law_spread_is_ask_less_bid(c: &Arithmetic, tick: NormalizedTick)
    requires
        c.is_accurate(),
        tick.is_valid(),
    ensures
        ({
            let (bid, ask) = (tick.bid.exact(), tick.ask.exact());
            gap(
                tick.spread_of(c).exact(),
                if ask < bid {
                    0
                } else {
                    ask - bid
                },
            ) <= two_to(-53).exact()
        }),
{
    let (zero, one) = (Double::from_bits(ZERO), Double::from_bits(ONE));
    lemma_exact_power(-53);
    lemma_exact_power(0);
    assert(two_to(0) == one);
    law_exact_orders(zero, tick.bid);
    law_exact_orders(tick.bid, one);
    law_exact_orders(zero, tick.ask);
    law_exact_orders(tick.ask, one);
    lemma_difference_near(c, tick.ask, tick.bid, 0);
    let d = c.minus(tick.ask, tick.bid);
    law_exact_orders(d, zero);
    law_exact_orders(zero, d);
    law_exact_orders(zero, zero);
}

} // verus!
