//! The edge that can be traded: what is left of a mispricing once depth, fees, slippage and
//! doubt are paid.
use vstd::prelude::*;
use crate::book::ConsolidatedBook;
use crate::double::{Arithmetic, Double, HALF, ONE, ZERO};
use crate::strategy::calibration::Calibrator;
use crate::types::alpha::FairValue;
use crate::types::contract::CanonicalContractId;
use crate::types::market;
use crate::types::market::WalkResult;
use crate::types::orders::Side;
use crate::types::validate;
use crate::types::venue::VenueId;

verus! {

/// 200.0
pub const DEFAULT_TAKER_FEE_BPS: u64 = 0x4069_0000_0000_0000;

/// 10000.0
pub const BPS: u64 = 0x40C3_8800_0000_0000;

#[derive(Debug, Clone, Copy, PartialEq, Eq, Structural)]
pub struct EdgeConfig {
    /// How much of the band's width is demanded as a margin.
    pub safety_margin_k: Double,
    pub taker_fee_bps: Double,
}

impl Default for EdgeConfig {
    fn default() -> (r: EdgeConfig)
        ensures
            r == (EdgeConfig {
                safety_margin_k: Double::from_bits(HALF),
                taker_fee_bps: Double::from_bits(DEFAULT_TAKER_FEE_BPS),
            }),
    {
        EdgeConfig {
            safety_margin_k: Double::from_bits(HALF),
            taker_fee_bps: Double::from_bits(DEFAULT_TAKER_FEE_BPS),
        }
    }
}

/// What trading one size comes to. A negative `tradable_edge` says not to.
#[derive(Debug, Clone, Copy, PartialEq, Eq, Structural)]
pub struct EdgeResult {
    pub side: Side,
    /// What the book can fill of the size.
    pub size: Double,
    pub expected_avg_entry: Double,
    pub execution_costs: Double,
    pub safety_margin: Double,
    pub tradable_edge: Double,
}

/// What stays fixed while the size varies.
#[derive(Clone, Copy)]
pub struct EdgeContext<'a> {
    pub fair_value: &'a FairValue,
    pub book: &'a ConsolidatedBook,
    pub contract: &'a CanonicalContractId,
    pub venue: VenueId,
    pub side: Side,
    pub calibration: &'a Calibrator,
    pub config: &'a EdgeConfig,
}

/// The walk through the side of the book that an order takes.
pub open spec fn walk_of(c: &Arithmetic, ctx: &EdgeContext, size: Double) -> Option<WalkResult> {
    match ctx.book@.of(ctx.contract@).depths.at(ctx.venue) {
        Some(depth) => match ctx.side {
            Side::Buy => market::walk_result(c, depth.asks@, size),
            Side::Sell => market::walk_result(c, depth.bids@, size),
        },
        None => None,
    }
}

/// `fair value - average entry - costs - margin`, with the first two turned round for a sell.
pub open spec fn edge_of(c: &Arithmetic, ctx: &EdgeContext, size: Double) -> Option<EdgeResult> {
    match walk_of(c, ctx, size) {
        Some(walk) => {
            let costs = c.plus(
                c.over(ctx.config.taker_fee_bps, Double::from_bits(BPS)),
                ctx.calibration@.expected(ctx.venue).expected_slippage,
            );
            let margin = c.times(ctx.config.safety_margin_k, ctx.fair_value.width(c));
            let raw = match ctx.side {
                Side::Buy => c.minus(ctx.fair_value.midpoint, walk.avg_price),
                Side::Sell => c.minus(walk.avg_price, ctx.fair_value.midpoint),
            };
            Some(
                EdgeResult {
                    side: ctx.side,
                    size: walk.filled_size,
                    expected_avg_entry: walk.avg_price,
                    execution_costs: costs,
                    safety_margin: margin,
                    tradable_edge: c.minus(c.minus(raw, costs), margin),
                },
            )
        },
        None => None,
    }
}

/// The edge of one size against one venue's actual depth. `None` without depth to walk.
pub fn compute_tradable_edge(c: &Arithmetic, ctx: &EdgeContext, size: Double) -> (r: Option<
    EdgeResult,
>)
    ensures
        r == edge_of(c, ctx, size),
{
    let walked = match ctx.side {
        Side::Buy => ctx.book.walk_ask(c, ctx.contract, ctx.venue, size),
        Side::Sell => ctx.book.walk_bid(c, ctx.contract, ctx.venue, size),
    };
    let walk = match walked {
        Some(walk) => walk,
        None => return None,
    };
    let estimate = ctx.calibration.estimate(ctx.venue);
    let execution_costs = c.plus(
        c.over(ctx.config.taker_fee_bps, Double::from_bits(BPS)),
        estimate.expected_slippage,
    );
    let safety_margin = c.times(ctx.config.safety_margin_k, ctx.fair_value.band_width(c));
    let raw_edge = match ctx.side {
        Side::Buy => c.minus(ctx.fair_value.midpoint, walk.avg_price),
        Side::Sell => c.minus(walk.avg_price, ctx.fair_value.midpoint),
    };
    Some(
        EdgeResult {
            side: ctx.side,
            size: walk.filled_size,
            expected_avg_entry: walk.avg_price,
            execution_costs,
            safety_margin,
            tradable_edge: c.minus(c.minus(raw_edge, execution_costs), safety_margin),
        },
    )
}

/// The profitable result with the largest size; of equal ones the last.
pub open spec fn largest_of(
    c: &Arithmetic,
    ctx: &EdgeContext,
    sizes: Seq<Double>,
) -> Option<EdgeResult>
    decreases sizes.len(),
{
    if sizes.len() == 0 {
        None
    } else {
        let best = largest_of(c, ctx, sizes.drop_last());
        match edge_of(c, ctx, sizes.last()) {
            Some(r) => if !r.tradable_edge.gt(Double::from_bits(ZERO)) || (best matches Some(b)
                && r.size.total_lt(b.size)) {
                best
            } else {
                Some(r)
            },
            None => best,
        }
    }
}

/// The result for the largest candidate size that is still profitable, if any is.
pub fn largest_profitable_size(c: &Arithmetic, ctx: &EdgeContext, candidate_sizes: &[Double]) -> (r:
    Option<EdgeResult>)
    ensures
        r == largest_of(c, ctx, candidate_sizes@),
{
    let mut best: Option<EdgeResult> = None;
    let mut i: usize = 0;
    while i < candidate_sizes.len()
        invariant
            i <= candidate_sizes.len(),
            best == largest_of(c, ctx, candidate_sizes@.take(i as int)),
        decreases candidate_sizes.len() - i,
    {
        assert(candidate_sizes@.take(i + 1).drop_last() == candidate_sizes@.take(i as int));
        match compute_tradable_edge(c, ctx, candidate_sizes[i]) {
            Some(r) => {
                let smaller = match best {
                    Some(b) => r.size.total_lt(b.size),
                    None => false,
                };
                if r.tradable_edge.gt(Double::from_bits(ZERO)) && !smaller {
                    best = Some(r);
                }
            },
            None => {},
        }
        i += 1;
    }
    assert(candidate_sizes@.take(i as int) == candidate_sizes@);
    best
}

/// The size that is picked is profitable, and no profitable candidate fills more. Where none is
/// picked, no candidate is profitable.
pub proof fn law_largest_size_is_profitable(
    c: &Arithmetic,
    ctx: &EdgeContext,
    sizes: Seq<Double>,
    i: int,
)
    requires
        0 <= i < sizes.len(),
    ensures
        largest_of(c, ctx, sizes) matches Some(b) ==> b.tradable_edge.gt(Double::from_bits(ZERO)),
        edge_of(c, ctx, sizes[i]) matches Some(r) ==> r.tradable_edge.gt(Double::from_bits(ZERO))
            ==> (largest_of(c, ctx, sizes) matches Some(b) && !b.size.total_lt(r.size)),
    decreases sizes.len(),
{
    let rest = sizes.drop_last();
    reveal_with_fuel(largest_of, 2);
    if rest.len() > 0 {
        let k = if i < rest.len() {
            i
        } else {
            0
        };
        law_largest_size_is_profitable(c, ctx, rest, k);
        assert(i < rest.len() ==> rest[i] == sizes[i]);
    }
    assert(sizes.last() == sizes[sizes.len() - 1]);
}

/// An edge is the advantage of the entry less all that it costs and the margin, and nothing else:
/// a trade is called profitable only where a buy pays less than the fair value and a sale brings
/// more, by more than its costs and what is left of it by more than the margin; and a trade whose
/// entry is no better than the fair value has no positive edge.
pub proof fn law_edge_needs_a_better_price(c: &Arithmetic, ctx: &EdgeContext, size: Double)
    requires
        c.is_ieee(),
        c.keeps_order(),
        c.rounds_differences(),
        edge_of(c, ctx, size) matches Some(r) && r.execution_costs.ge(Double::from_bits(ZERO))
            && r.safety_margin.ge(Double::from_bits(ZERO)) && r.execution_costs.is_finite()
            && r.safety_margin.is_finite() && validate::is_probability(r.expected_avg_entry),
        validate::is_probability(ctx.fair_value.midpoint),
    ensures
        edge_of(c, ctx, size) matches Some(r) && {
            let fair = ctx.fair_value.midpoint;
            let gain = match ctx.side {
                Side::Buy => c.minus(fair, r.expected_avg_entry),
                Side::Sell => c.minus(r.expected_avg_entry, fair),
            };
            &&& r.side == ctx.side
            &&& r.tradable_edge.same(c.minus(c.minus(gain, r.execution_costs), r.safety_margin))
            &&& r.tradable_edge.le(gain)
            &&& r.tradable_edge.gt(Double::from_bits(ZERO)) ==> {
                &&& ctx.side == Side::Buy ==> r.expected_avg_entry.lt(fair)
                &&& ctx.side == Side::Sell ==> fair.lt(r.expected_avg_entry)
                &&& r.execution_costs.lt(gain)
                &&& r.safety_margin.lt(c.minus(gain, r.execution_costs))
            }
        },
{
    reveal(Arithmetic::rounds_differences);
    let zero = Double::from_bits(ZERO);
    let r = edge_of(c, ctx, size)->0;
    let fair = ctx.fair_value.midpoint;
    let gain = match ctx.side {
        Side::Buy => c.minus(fair, r.expected_avg_entry),
        Side::Sell => c.minus(r.expected_avg_entry, fair),
    };
    lemma_difference_of_probabilities(c, fair, r.expected_avg_entry);
    lemma_difference_of_probabilities(c, r.expected_avg_entry, fair);
    let left = c.minus(gain, r.execution_costs);
    assert(left.le(gain));
    assert(!left.is_nan());
    let edge = c.minus(left, r.safety_margin);
    assert(!edge.is_nan());
    assert(edge.le(left)) by {
        if !left.is_finite() {
            lemma_below_everything(c, left, r.safety_margin);
        }
    }
}

proof fn lemma_difference_of_probabilities(c: &Arithmetic, a: Double, b: Double)
    requires
        c.is_ieee(),
        c.keeps_order(),
        c.rounds_differences(),
        validate::is_probability(a),
        validate::is_probability(b),
    ensures
        c.minus(a, b).is_finite(),
        c.minus(a, b).le(Double::from_bits(ONE)),
        c.minus(a, b).gt(Double::from_bits(ZERO)) <==> b.lt(a),
{
    reveal(Arithmetic::rounds_differences);
    let zero = Double::from_bits(ZERO);
    let one = Double::from_bits(ONE);
    assert(c.minus(a, b).le(a));
    // No less than 0 - 1, which is -1.
    assert(c.minus(a, b) == c.plus(a, b.neg()));
    assert(c.minus(a, one).le(c.minus(a, b)));
    assert(c.minus(zero, one).le(c.minus(a, one)));
    assert(c.minus(zero, one) == c.plus(zero, one.neg()));
    assert(c.plus(zero, one.neg()) == one.neg());
}

proof fn lemma_below_everything(c: &Arithmetic, low: Double, margin: Double)
    requires
        c.is_ieee(),
        c.keeps_order(),
        c.rounds_differences(),
        !low.is_nan(),
        !low.is_finite(),
        low.le(Double::from_bits(ONE)),
        margin.is_finite(),
        margin.ge(Double::from_bits(ZERO)),
    ensures
        c.minus(low, margin).le(low),
{
    reveal(Arithmetic::rounds_differences);
    let zero = Double::from_bits(ZERO);
    assert(c.minus(low, margin) == c.plus(low, margin.neg()));
    assert(c.plus(low, margin.neg()).le(c.plus(low, zero)));
    assert(c.plus(low, zero) == low);
}

/// A better price is a better edge: of two trades on one side at one fair value, with equal costs
/// and margins, the sale at the higher price has the larger edge, and the buy at the lower one.
pub proof fn law_better_price_is_a_better_edge(
    c: &Arithmetic,
    worse: &EdgeContext,
    better: &EdgeContext,
    size: Double,
)
    requires
        c.is_ieee(),
        c.keeps_order(),
        c.rounds_differences(),
        worse.side == better.side,
        worse.fair_value.midpoint == better.fair_value.midpoint,
        validate::is_probability(worse.fair_value.midpoint),
        edge_of(c, worse, size) matches Some(a) && edge_of(c, better, size) matches Some(b) && {
            &&& a.execution_costs == b.execution_costs
            &&& a.safety_margin == b.safety_margin
            &&& a.execution_costs.is_finite()
            &&& a.safety_margin.is_finite()
            &&& validate::is_probability(a.expected_avg_entry)
            &&& validate::is_probability(b.expected_avg_entry)
            &&& worse.side == Side::Buy ==> b.expected_avg_entry.le(a.expected_avg_entry)
            &&& worse.side == Side::Sell ==> a.expected_avg_entry.le(b.expected_avg_entry)
        },
    ensures
        edge_of(c, worse, size)->0.tradable_edge.le(edge_of(c, better, size)->0.tradable_edge),
{
    reveal(Arithmetic::rounds_differences);
    let a = edge_of(c, worse, size)->0;
    let b = edge_of(c, better, size)->0;
    let fair = worse.fair_value.midpoint;
    lemma_difference_of_probabilities(c, fair, a.expected_avg_entry);
    lemma_difference_of_probabilities(c, a.expected_avg_entry, fair);
    lemma_difference_of_probabilities(c, fair, b.expected_avg_entry);
    lemma_difference_of_probabilities(c, b.expected_avg_entry, fair);
    let (x, y) = match worse.side {
        Side::Buy => (c.minus(fair, a.expected_avg_entry), c.minus(fair, b.expected_avg_entry)),
        Side::Sell => (c.minus(a.expected_avg_entry, fair), c.minus(b.expected_avg_entry, fair)),
    };
    assert(x.le(y));
    let (p, q) = (c.minus(x, a.execution_costs), c.minus(y, a.execution_costs));
    assert(p.le(q));
    assert(c.minus(p, a.safety_margin).le(c.minus(q, a.safety_margin)));
}

/// A buy takes asks and a sale takes bids, of the venue and contract that it is for: what else the
/// books hold does not matter, and without that side there is no edge at all.
pub proof fn law_only_the_taken_side_matters(
    c: &Arithmetic,
    one: &EdgeContext,
    other: &EdgeContext,
    size: Double,
)
    requires
        one.side == other.side,
        one.venue == other.venue,
        one.contract@ == other.contract@,
        one.fair_value == other.fair_value,
        one.calibration@ == other.calibration@,
        one.config == other.config,
        one.book@.of(one.contract@).depths.at(one.venue) matches Some(a) && other.book@.of(
            one.contract@,
        ).depths.at(one.venue) matches Some(b) && match one.side {
            Side::Buy => a.asks@ == b.asks@,
            Side::Sell => a.bids@ == b.bids@,
        },
    ensures
        edge_of(c, one, size) == edge_of(c, other, size),
        ({
            let depth = one.book@.of(one.contract@).depths.at(one.venue)->0;
            let levels = match one.side {
                Side::Buy => depth.asks@,
                Side::Sell => depth.bids@,
            };
            match market::walk_result(c, levels, size) {
                Some(w) => edge_of(c, one, size) matches Some(r) && r.size == w.filled_size
                    && r.expected_avg_entry == w.avg_price,
                None => edge_of(c, one, size) is None,
            }
        }),
{
}

/// Costs are the taker's fee, a share of one in basis points, and the slippage that is expected at
/// the venue; the margin is the configured share of the band's width. Neither depends on the side
/// or the size, and more slippage, a higher fee or a wider band never lowers them.
pub proof fn law_costs_are_fee_and_slippage(
    c: &Arithmetic,
    cheap: &EdgeContext,
    dear: &EdgeContext,
    small: Double,
    large: Double,
)
    requires
        c.is_ieee(),
        c.keeps_order(),
        c.rounds(),
        edge_of(c, cheap, small) is Some,
        edge_of(c, dear, large) is Some,
        validate::is_non_negative(cheap.config.taker_fee_bps),
        validate::is_non_negative(dear.config.taker_fee_bps),
        cheap.config.taker_fee_bps.le(dear.config.taker_fee_bps),
        cheap.calibration@.expected(cheap.venue).expected_slippage.is_finite(),
        dear.calibration@.expected(dear.venue).expected_slippage.is_finite(),
        cheap.calibration@.expected(cheap.venue).expected_slippage.le(
            dear.calibration@.expected(dear.venue).expected_slippage,
        ),
        cheap.config.safety_margin_k == dear.config.safety_margin_k,
        validate::is_non_negative(cheap.config.safety_margin_k),
        validate::is_non_negative(cheap.fair_value.width(c)),
        validate::is_non_negative(dear.fair_value.width(c)),
        cheap.fair_value.width(c).le(dear.fair_value.width(c)),
    ensures
        ({
            let a = edge_of(c, cheap, small)->0;
            let b = edge_of(c, dear, large)->0;
            let fee = c.over(cheap.config.taker_fee_bps, Double::from_bits(BPS));
            &&& a.execution_costs.le(b.execution_costs)
            &&& a.safety_margin.le(b.safety_margin)
            &&& Double::from_bits(ZERO).le(a.safety_margin)
            &&& cheap.calibration@.expected(cheap.venue).expected_slippage.is_zero()
                ==> a.execution_costs.same(fee)
            &&& cheap.config.taker_fee_bps.is_zero() ==> a.execution_costs.same(
                cheap.calibration@.expected(cheap.venue).expected_slippage,
            )
            &&& cheap.config.safety_margin_k == Double::from_bits(ONE)
                ==> a.safety_margin.same(cheap.fair_value.width(c))
        }),
{
    reveal(Arithmetic::rounds_sums);
    reveal(Arithmetic::rounds_products);
    reveal(Arithmetic::rounds_quotients);
    let zero = Double::from_bits(ZERO);
    let one = Double::from_bits(ONE);
    let bps = Double::from_bits(BPS);
    let f = c.over(cheap.config.taker_fee_bps, bps);
    let g = c.over(dear.config.taker_fee_bps, bps);
    let s = cheap.calibration@.expected(cheap.venue).expected_slippage;
    let t = dear.calibration@.expected(dear.venue).expected_slippage;
    assert(zero.le(f) && zero.le(g));
    assert(f.le(g));
    assert(!c.plus(f, s).is_nan() && !c.plus(f, t).is_nan() && !c.plus(g, t).is_nan());
    assert(c.plus(f, s).le(c.plus(f, t)));
    assert(c.plus(t, f) == c.plus(f, t) && c.plus(t, g) == c.plus(g, t));
    assert(c.plus(t, f).le(c.plus(t, g)));
    let k = cheap.config.safety_margin_k;
    let (v, w) = (cheap.fair_value.width(c), dear.fair_value.width(c));
    assert(zero.le(c.times(k, v)) && zero.le(c.times(k, w)));
    assert(c.times(k, v).le(c.times(k, w)));
    assert(c.times(v, one) == v);
    assert(c.times(one, v) == c.times(v, one));
    if cheap.config.taker_fee_bps.is_zero() {
        assert(f.is_zero());
    }
    if s.is_zero() && !f.is_zero() {
        assert(c.plus(f, s) == f);
    }
}

} // verus!
