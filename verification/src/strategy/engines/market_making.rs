//! Two-sided quotes in a ladder round the fair value.
use vstd::prelude::*;
use crate::double::{Arithmetic, Double, HALF, ONE, TWO, ZERO};
use crate::rounding::{
    gap, law_exact_orders, law_powers_are_ordered, lemma_cancel, lemma_exact_power, two_to, unit,
};
use crate::strategy::calibration::CalibrationState;
use crate::strategy::engine;
use crate::strategy::engine::{Snapshot, StrategyEngine, StrategyInput};
use crate::types::market::NormalizedTick;
use crate::types::orders::{EngineId, OrderIntent, OrderType, Side};
use crate::types::venue::{FeeSchedule, VenueId};

verus! {

/// 0.01
pub const DEFAULT_STEP: u64 = 0x3F84_7AE1_47AE_147B;

/// 0.0005
pub const DEFAULT_SKEW: u64 = 0x3F40_624D_D2F1_A9FC;

/// 10.0
pub const DEFAULT_LEVEL_SIZE: u64 = 0x4024_0000_0000_0000;

#[derive(Debug, Clone, Copy, PartialEq, Eq, Structural)]
pub struct MarketMakingConfig {
    /// The least half-spread, however tight the band.
    pub base_half_spread: Double,
    /// How much of the band's half-width is added to the half-spread.
    pub band_multiplier: Double,
    /// How far the centre moves, in price, for each unit held; away from the holding's sign.
    pub inventory_skew_sensitivity: Double,
    pub ladder_levels: usize,
    pub level_spacing: Double,
    pub level_size: Double,
    /// What the venues charge: no half-spread is smaller than a round trip costs.
    pub fees: FeeSchedule,
}

impl MarketMakingConfig {
    /// The usual configuration.
    pub open spec fn usual() -> MarketMakingConfig {
        MarketMakingConfig {
            base_half_spread: Double::from_bits(DEFAULT_STEP),
            band_multiplier: Double::from_bits(HALF),
            inventory_skew_sensitivity: Double::from_bits(DEFAULT_SKEW),
            ladder_levels: 3,
            level_spacing: Double::from_bits(DEFAULT_STEP),
            level_size: Double::from_bits(DEFAULT_LEVEL_SIZE),
            fees: FeeSchedule::usual(),
        }
    }
}

impl Default for MarketMakingConfig {
    fn default() -> (r: MarketMakingConfig)
        ensures
            r == MarketMakingConfig::usual(),
    {
        MarketMakingConfig {
            base_half_spread: Double::from_bits(DEFAULT_STEP),
            band_multiplier: Double::from_bits(HALF),
            inventory_skew_sensitivity: Double::from_bits(DEFAULT_SKEW),
            ladder_levels: 3,
            level_spacing: Double::from_bits(DEFAULT_STEP),
            level_size: Double::from_bits(DEFAULT_LEVEL_SIZE),
            fees: FeeSchedule::default(),
        }
    }
}

/// The venue with the best fill probability among the quotes; of equal ones the last.
pub open spec fn likeliest(quotes: Seq<NormalizedTick>, known: CalibrationState) -> VenueId
    recommends
        quotes.len() > 0,
    decreases quotes.len(),
{
    if quotes.len() <= 1 {
        quotes.last().venue
    } else {
        let best = likeliest(quotes.drop_last(), known);
        let last = quotes.last().venue;
        if known.expected(last).fill_probability.lt(known.expected(best).fill_probability) {
            best
        } else {
            last
        }
    }
}

/// The centre of the ladder: the fair value, skewed against the holding at the venue.
pub open spec fn center(
    c: &Arithmetic,
    config: MarketMakingConfig,
    seen: Snapshot,
    venue: VenueId,
) -> Double {
    let held = match seen.inventory.at(venue) {
        Some(q) => q,
        None => Double::from_bits(ZERO),
    };
    c.minus(
        seen.fair_value.midpoint,
        c.times(config.inventory_skew_sensitivity, held),
    ).clamp(Double::from_bits(ZERO), Double::from_bits(ONE))
}

/// What a contract bought and sold again at the centre costs in fees at the venue.
pub open spec fn round_trip(
    c: &Arithmetic,
    config: MarketMakingConfig,
    seen: Snapshot,
    venue: VenueId,
) -> Double {
    config.fees.at(venue).round_trip_of(c, center(c, config, seen, venue))
}

/// The half-spread: the least one, plus a share of the band's half-width, and no less than the
/// fees of a round trip.
pub open spec fn half_spread(
    c: &Arithmetic,
    config: MarketMakingConfig,
    seen: Snapshot,
    venue: VenueId,
) -> Double {
    c.plus(
        config.base_half_spread,
        c.times(
            config.band_multiplier,
            c.over(seen.fair_value.width(c), Double::from_bits(TWO)),
        ),
    ).larger(round_trip(c, config, seen, venue))
}

/// How far the quotes of a level lie from the centre.
pub open spec fn offset(
    c: &Arithmetic,
    config: MarketMakingConfig,
    seen: Snapshot,
    venue: VenueId,
    level: int,
) -> Double {
    c.plus(
        half_spread(c, config, seen, venue),
        c.times(c.of_count(level as u64), config.level_spacing),
    )
}

/// The quotes of one level: a bid above 0 and an ask below 1, where the level reaches them.
pub open spec fn rung(
    c: &Arithmetic,
    config: MarketMakingConfig,
    seen: Snapshot,
    venue: VenueId,
    level: int,
) -> Seq<OrderIntent> {
    let zero = Double::from_bits(ZERO);
    let one = Double::from_bits(ONE);
    let middle = center(c, config, seen, venue);
    let bid = c.minus(middle, offset(c, config, seen, venue, level));
    let ask = c.plus(middle, offset(c, config, seen, venue, level));
    (if bid.gt(zero) {
        seq![
            engine::order(
                seen,
                venue,
                Side::Buy,
                bid.clamp(zero, one),
                config.level_size,
                OrderType::Limit,
                EngineId::MarketMaking,
            ),
        ]
    } else {
        Seq::empty()
    }) + (if ask.lt(one) {
        seq![
            engine::order(
                seen,
                venue,
                Side::Sell,
                ask.clamp(zero, one),
                config.level_size,
                OrderType::Limit,
                EngineId::MarketMaking,
            ),
        ]
    } else {
        Seq::empty()
    })
}

/// The first `levels` rungs.
pub open spec fn ladder(
    c: &Arithmetic,
    config: MarketMakingConfig,
    seen: Snapshot,
    venue: VenueId,
    levels: int,
) -> Seq<OrderIntent>
    decreases levels,
{
    if levels <= 0 {
        Seq::empty()
    } else {
        ladder(c, config, seen, venue, levels - 1) + rung(c, config, seen, venue, levels - 1)
    }
}

/// Quotes on both sides of the fair value at the likeliest venue, skewed by what is held and
/// widened by disagreement between models.
#[derive(Debug)]
pub struct MarketMakingEngine {
    pub config: MarketMakingConfig,
}

impl MarketMakingEngine {
    pub fn new(config: MarketMakingConfig) -> (r: MarketMakingEngine)
        ensures
            r == (MarketMakingEngine { config }),
    {
        MarketMakingEngine { config }
    }

    fn pick_venue(input: &StrategyInput) -> (r: Option<VenueId>)
        ensures
            r == (if input@.book.quotes(input.contract@).len() == 0 {
                None
            } else {
                Some(likeliest(input@.book.quotes(input.contract@), input@.calibration))
            }),
    {
        let quotes = input.book.quotes(input.contract);
        if quotes.len() == 0 {
            return None;
        }
        let mut best = quotes[0].venue;
        let mut i: usize = 1;
        assert(quotes@.take(1).last() == quotes@[0]);
        while i < quotes.len()
            invariant
                1 <= i <= quotes.len(),
                best == likeliest(quotes@.take(i as int), input.calibration@),
            decreases quotes.len() - i,
        {
            assert(quotes@.take(i + 1).drop_last() == quotes@.take(i as int));
            let last = quotes[i].venue;
            let chance = input.calibration.estimate(last).fill_probability;
            if !chance.lt(input.calibration.estimate(best).fill_probability) {
                best = last;
            }
            i += 1;
        }
        assert(quotes@.take(i as int) == quotes@);
        Some(best)
    }
}

impl StrategyEngine for MarketMakingEngine {
    open spec fn identity(&self) -> EngineId {
        EngineId::MarketMaking
    }

    open spec fn proposals(&self, c: &Arithmetic, seen: Snapshot) -> Seq<OrderIntent> {
        let quotes = seen.book.quotes(seen.contract@);
        if quotes.len() == 0 {
            Seq::empty()
        } else {
            ladder(
                c,
                self.config,
                seen,
                likeliest(quotes, seen.calibration),
                self.config.ladder_levels as int,
            )
        }
    }

    fn id(&self) -> (r: EngineId) {
        EngineId::MarketMaking
    }

    fn evaluate(&self, c: &Arithmetic, input: &StrategyInput) -> (r: Vec<OrderIntent>) {
        let zero = Double::from_bits(ZERO);
        let one = Double::from_bits(ONE);
        let venue = match MarketMakingEngine::pick_venue(input) {
            Some(venue) => venue,
            None => return Vec::new(),
        };
        let inventory = match input.inventory.get(venue) {
            Some(q) => *q,
            None => zero,
        };
        let skew = c.times(self.config.inventory_skew_sensitivity, inventory);
        let center = c.minus(input.fair_value.midpoint, skew).clamp(zero, one);
        let half_spread = c.plus(
            self.config.base_half_spread,
            c.times(
                self.config.band_multiplier,
                c.over(input.fair_value.band_width(c), Double::from_bits(TWO)),
            ),
        ).larger(self.config.fees.at(venue).round_trip(c, center));
        let mut intents: Vec<OrderIntent> = Vec::new();
        let mut level: usize = 0;
        while level < self.config.ladder_levels
            invariant
                level <= self.config.ladder_levels,
                zero == Double::from_bits(ZERO),
                one == Double::from_bits(ONE),
                half_spread == self::half_spread(c, self.config, input@, venue),
                center == self::center(c, self.config, input@, venue),
                intents@ == ladder(c, self.config, input@, venue, level as int),
            decreases self.config.ladder_levels - level,
        {
            let offset = c.plus(
                half_spread,
                c.times(c.of_count(level as u64), self.config.level_spacing),
            );
            let bid_price = c.minus(center, offset);
            let ask_price = c.plus(center, offset);
            let ghost before = intents@;
            if bid_price.gt(zero) {
                intents.push(
                    engine::make_order(
                        input,
                        venue,
                        Side::Buy,
                        bid_price.clamp(zero, one),
                        self.config.level_size,
                        OrderType::Limit,
                        EngineId::MarketMaking,
                    ),
                );
            }
            if ask_price.lt(one) {
                intents.push(
                    engine::make_order(
                        input,
                        venue,
                        Side::Sell,
                        ask_price.clamp(zero, one),
                        self.config.level_size,
                        OrderType::Limit,
                        EngineId::MarketMaking,
                    ),
                );
            }
            assert(intents@ == before + rung(c, self.config, input@, venue, level as int));
            level += 1;
        }
        intents
    }
}

/// Every quote of a ladder rests at the one venue, on the one contract, at the level's size.
pub proof fn law_every_quote_names_its_venue(
    c: &Arithmetic,
    config: MarketMakingConfig,
    seen: Snapshot,
    venue: VenueId,
    levels: int,
    i: int,
)
    requires
        0 <= i < ladder(c, config, seen, venue, levels).len(),
    ensures
        ladder(c, config, seen, venue, levels)[i].venue == venue,
        ladder(c, config, seen, venue, levels)[i].contract == seen.contract,
        ladder(c, config, seen, venue, levels)[i].engine == EngineId::MarketMaking,
        ladder(c, config, seen, venue, levels)[i].order_type == OrderType::Limit,
        ladder(c, config, seen, venue, levels)[i].size == config.level_size,
    decreases levels,
{
    if levels > 0 && i < ladder(c, config, seen, venue, levels - 1).len() {
        law_every_quote_names_its_venue(c, config, seen, venue, levels - 1, i);
    }
}

/// Every quoted price is a probability.
pub proof fn law_quotes_are_probabilities(
    c: &Arithmetic,
    config: MarketMakingConfig,
    seen: Snapshot,
    venue: VenueId,
    levels: int,
    i: int,
)
    requires
        0 <= i < ladder(c, config, seen, venue, levels).len(),
    ensures
        Double::from_bits(ZERO).le(ladder(c, config, seen, venue, levels)[i].price),
        ladder(c, config, seen, venue, levels)[i].price.le(Double::from_bits(ONE)),
    decreases levels,
{
    if levels > 0 {
        let before = ladder(c, config, seen, venue, levels - 1);
        if i < before.len() {
            law_quotes_are_probabilities(c, config, seen, venue, levels - 1, i);
        }
    }
}

proof fn lemma_sides_of_the_center(
    c: &Arithmetic,
    config: MarketMakingConfig,
    seen: Snapshot,
    venue: VenueId,
    levels: int,
    i: int,
)
    requires
        c.is_ieee(),
        !center(c, config, seen, venue).is_nan(),
        forall|level: int|
            0 <= level < levels ==> (#[trigger] offset(c, config, seen, venue, level)).ge(
                Double::from_bits(ZERO),
            ),
        0 <= i < ladder(c, config, seen, venue, levels).len(),
    ensures
        ({
            let quote = ladder(c, config, seen, venue, levels)[i];
            match quote.side {
                Side::Buy => quote.price.le(center(c, config, seen, venue)),
                Side::Sell => center(c, config, seen, venue).le(quote.price),
            }
        }),
    decreases levels,
{
    if levels > 0 {
        let before = ladder(c, config, seen, venue, levels - 1);
        let middle = center(c, config, seen, venue);
        let step = offset(c, config, seen, venue, levels - 1);
        if i < before.len() {
            lemma_sides_of_the_center(c, config, seen, venue, levels - 1, i);
        } else {
            assert(middle.is_finite());
            assert(step.ge(Double::from_bits(ZERO)));
            assert(c.minus(middle, step).le(middle));
            assert(middle.le(c.plus(middle, step)));
        }
    }
}

/// The half-spread covers the fees of a round trip, where these are a number.
pub proof fn law_half_spread_covers_the_fees(
    c: &Arithmetic,
    config: MarketMakingConfig,
    seen: Snapshot,
    venue: VenueId,
)
    requires
        !round_trip(c, config, seen, venue).is_nan(),
    ensures
        round_trip(c, config, seen, venue).le(half_spread(c, config, seen, venue)),
{
}

/// Every quote lies at least the fees of a round trip away from the centre, where the half-spread
/// is finite and the levels move outwards.
pub proof fn law_quotes_clear_the_fees(
    c: &Arithmetic,
    config: MarketMakingConfig,
    seen: Snapshot,
    venue: VenueId,
    levels: int,
    i: int,
)
    requires
        c.is_ieee(),
        c.keeps_order(),
        !center(c, config, seen, venue).is_nan(),
        round_trip(c, config, seen, venue).ge(Double::from_bits(ZERO)),
        half_spread(c, config, seen, venue).is_finite(),
        config.level_spacing.ge(Double::from_bits(ZERO)),
        config.level_spacing.is_finite(),
        0 <= i < ladder(c, config, seen, venue, levels).len(),
    ensures
        ({
            let quote = ladder(c, config, seen, venue, levels)[i];
            let middle = center(c, config, seen, venue);
            let fees = round_trip(c, config, seen, venue);
            match quote.side {
                Side::Buy => quote.price.le(c.minus(middle, fees)),
                Side::Sell => c.plus(middle, fees).le(quote.price),
            }
        }),
    decreases levels,
{
    if levels > 0 {
        let before = ladder(c, config, seen, venue, levels - 1);
        let middle = center(c, config, seen, venue);
        let fees = round_trip(c, config, seen, venue);
        let half = half_spread(c, config, seen, venue);
        let out = c.times(c.of_count((levels - 1) as u64), config.level_spacing);
        let step = offset(c, config, seen, venue, levels - 1);
        if i < before.len() {
            law_quotes_clear_the_fees(c, config, seen, venue, levels - 1, i);
        } else {
            assert(middle.is_finite());
            assert(fees.le(half));
            assert(Double::from_bits(ZERO).le(out));
            assert(half.le(step));
            assert(c.minus(middle, step).le(middle) && c.minus(middle, fees).le(middle));
            assert(c.minus(middle, step).le(c.minus(middle, fees)));
            assert(middle.le(c.plus(middle, step)) && middle.le(c.plus(middle, fees)));
            assert(c.plus(middle, fees).le(c.plus(middle, step)));
        }
    }
}

/// A ladder never crosses itself: no bid lies above an ask, where no level lies on the wrong side
/// of the centre.
pub proof fn law_ladder_never_crosses(
    c: &Arithmetic,
    config: MarketMakingConfig,
    seen: Snapshot,
    venue: VenueId,
    levels: int,
    i: int,
    j: int,
)
    requires
        c.is_ieee(),
        !center(c, config, seen, venue).is_nan(),
        forall|level: int|
            0 <= level < levels ==> (#[trigger] offset(c, config, seen, venue, level)).ge(
                Double::from_bits(ZERO),
            ),
        0 <= i < ladder(c, config, seen, venue, levels).len(),
        0 <= j < ladder(c, config, seen, venue, levels).len(),
        ladder(c, config, seen, venue, levels)[i].side == Side::Buy,
        ladder(c, config, seen, venue, levels)[j].side == Side::Sell,
    ensures
        ladder(c, config, seen, venue, levels)[i].price.le(
            ladder(c, config, seen, venue, levels)[j].price,
        ),
{
    lemma_sides_of_the_center(c, config, seen, venue, levels, i);
    lemma_sides_of_the_center(c, config, seen, venue, levels, j);
}

/// The quotes of one side, innermost first.
pub open spec fn quotes_of(quotes: Seq<OrderIntent>, side: Side) -> Seq<OrderIntent> {
    quotes.filter(|q: OrderIntent| q.side == side)
}

/// Whether the numbers of a ladder are of an ordinary size: a spacing of at least 2^-20 and no
/// more than 1, and a half-spread that is not negative.
pub open spec fn is_ordinary_ladder(
    c: &Arithmetic,
    config: MarketMakingConfig,
    seen: Snapshot,
    venue: VenueId,
) -> bool {
    &&& two_to(-20).le(config.level_spacing)
    &&& config.level_spacing.le(Double::from_bits(ONE))
    &&& half_spread(c, config, seen, venue).ge(Double::from_bits(ZERO))
    &&& half_spread(c, config, seen, venue).is_finite()
    &&& !center(c, config, seen, venue).is_nan()
}

/// The bid and the ask of a level, whether or not they are quoted.
spec fn bid_at(
    c: &Arithmetic,
    config: MarketMakingConfig,
    seen: Snapshot,
    venue: VenueId,
    level: int,
) -> Double {
    c.minus(center(c, config, seen, venue), offset(c, config, seen, venue, level))
}

spec fn ask_at(
    c: &Arithmetic,
    config: MarketMakingConfig,
    seen: Snapshot,
    venue: VenueId,
    level: int,
) -> Double {
    c.plus(center(c, config, seen, venue), offset(c, config, seen, venue, level))
}

proof fn lemma_step(c: &Arithmetic, spacing: Double, half: Double, level: int)
    requires
        c.is_ieee(),
        c.keeps_order(),
        c.rounds(),
        c.is_accurate(),
        two_to(-20).le(spacing),
        spacing.le(Double::from_bits(ONE)),
        half.ge(Double::from_bits(ZERO)),
        half.is_finite(),
        0 <= level <= 0x10_0000,
        c.plus(half, c.times(c.of_count(level as u64), spacing)).le(Double::from_bits(ONE)),
    ensures
        gap(
            c.plus(half, c.times(c.of_count(level as u64), spacing)).exact(),
            half.exact() + level * spacing.exact(),
        ) <= 2 * two_to(-53).exact(),
        Double::from_bits(ZERO).le(c.plus(half, c.times(c.of_count(level as u64), spacing))),
{
    reveal(Arithmetic::rounds_sums);
    reveal(Arithmetic::is_accurate);
    let zero = Double::from_bits(ZERO);
    let one = Double::from_bits(ONE);
    let n = c.of_count(level as u64);
    let out = c.times(n, spacing);
    law_powers_are_ordered(-20, 0);
    lemma_exact_power(-53);
    lemma_exact_power(0);
    assert(zero.le(out));
    let off = c.plus(half, out);
    assert(zero.le(off) && off.le(one));
    // Both parts are no larger than the sum.
    assert(half.le(off));
    assert(out.le(off)) by {
        assert(c.plus(out, half) == off);
        if out.is_finite() {
            assert(out.le(c.plus(out, half)));
        } else {
            assert(c.plus(out, zero).le(c.plus(out, half)));
        }
    }
    assert(out.is_finite());
    assert(off.abs() == off || off.is_zero());
    assert(out.abs().le(two_to(0)) && off.abs().le(two_to(0)));
    assert(gap(off.exact(), half.exact() + out.exact()) <= two_to(-53).exact());
    let u = unit();
    assert(gap(out.exact() * u, n.exact() * spacing.exact()) <= two_to(-53).exact() * u);
    assert(n.exact() == level * u);
    let (m, s) = (n.exact(), spacing.exact());
    let steps = level * s;
    assert(m * s == steps * u) by (nonlinear_arith)
        requires
            m == level * u,
            steps == level * s,
    ;
    lemma_cancel(out.exact(), steps, two_to(-53).exact(), u);
}

proof fn lemma_level(
    c: &Arithmetic,
    config: MarketMakingConfig,
    seen: Snapshot,
    venue: VenueId,
    level: int,
)
    requires
        c.is_ieee(),
        c.keeps_order(),
        c.rounds(),
        c.rounds_differences(),
        c.is_accurate(),
        is_ordinary_ladder(c, config, seen, venue),
        0 <= level <= 0x10_0000,
    ensures
        ({
            let middle = center(c, config, seen, venue).exact();
            let half = half_spread(c, config, seen, venue).exact();
            let far = half + level * config.level_spacing.exact();
            let bid = bid_at(c, config, seen, venue, level);
            let ask = ask_at(c, config, seen, venue, level);
            let tiny = two_to(-53).exact();
            &&& bid.gt(Double::from_bits(ZERO)) ==> gap(bid.exact(), middle - far) <= 3 * tiny
                && bid.le(Double::from_bits(ONE)) && bid.exact() > 0
            &&& ask.lt(Double::from_bits(ONE)) ==> gap(ask.exact(), middle + far) <= 3 * tiny
                && Double::from_bits(ZERO).le(ask)
        }),
{
    reveal(Arithmetic::rounds_sums);
    reveal(Arithmetic::rounds_differences);
    reveal(Arithmetic::is_accurate);
    let zero = Double::from_bits(ZERO);
    let one = Double::from_bits(ONE);
    let middle = center(c, config, seen, venue);
    let half = half_spread(c, config, seen, venue);
    let off = offset(c, config, seen, venue, level);
    let out = c.times(c.of_count(level as u64), config.level_spacing);
    assert(off == c.plus(half, out));
    law_powers_are_ordered(-20, 0);
    lemma_exact_power(-53);
    lemma_exact_power(0);
    assert(zero.le(middle) && middle.le(one));
    assert(zero.le(out));
    assert(zero.le(off));
    let bid = bid_at(c, config, seen, venue, level);
    let ask = ask_at(c, config, seen, venue, level);
    if bid.gt(zero) {
        assert(off.le(middle)) by {
            if middle.lt(off) {
                if off.is_finite() {
                    assert(bid.lt(zero));
                } else {
                    assert(bid.le(c.minus(middle, middle))) by {
                        assert(!c.minus(middle, off).is_nan());
                    }
                    assert(c.minus(middle, middle).is_zero());
                }
            }
        }
        assert(bid.le(middle));
        lemma_step(c, config.level_spacing, half, level);
        assert(bid.abs() == bid);
        assert(bid.abs().le(two_to(0)));
        law_exact_orders(zero, bid);
        law_exact_orders(bid, zero);
    }
    if ask.lt(one) {
        assert(off.le(one)) by {
            assert(!c.plus(middle, off).is_nan());
            if off.is_finite() {
                assert(c.plus(off, middle) == ask);
                assert(off.le(c.plus(off, middle)));
            } else {
                assert(c.plus(off, middle) == c.plus(middle, off));
                assert(c.plus(off, zero).le(c.plus(off, middle)));
            }
        }
        assert(middle.le(ask));
        lemma_step(c, config.level_spacing, half, level);
        assert(ask.abs().le(two_to(0)));
    }
}

proof fn lemma_sides(
    c: &Arithmetic,
    config: MarketMakingConfig,
    seen: Snapshot,
    venue: VenueId,
    levels: int,
)
    requires
        c.is_ieee(),
        c.keeps_order(),
        c.rounds(),
        c.rounds_differences(),
        c.is_accurate(),
        is_ordinary_ladder(c, config, seen, venue),
        0 <= levels <= 0x10_0000,
    ensures
        ({
            let bids = quotes_of(ladder(c, config, seen, venue, levels), Side::Buy);
            let asks = quotes_of(ladder(c, config, seen, venue, levels), Side::Sell);
            &&& bids.len() <= levels
            &&& asks.len() <= levels
            &&& forall|k: int|
                0 <= k < bids.len() ==> (#[trigger] bids[k]).price == bid_at(
                    c,
                    config,
                    seen,
                    venue,
                    k,
                ) && bids[k].price.gt(Double::from_bits(ZERO))
            &&& forall|k: int|
                0 <= k < asks.len() ==> (#[trigger] asks[k]).price == ask_at(
                    c,
                    config,
                    seen,
                    venue,
                    k,
                ) && asks[k].price.lt(Double::from_bits(ONE))
            &&& forall|k: int|
                bids.len() <= k < levels ==> !(#[trigger] bid_at(c, config, seen, venue, k)).gt(
                    Double::from_bits(ZERO),
                )
            &&& forall|k: int|
                asks.len() <= k < levels ==> !(#[trigger] ask_at(c, config, seen, venue, k)).lt(
                    Double::from_bits(ONE),
                )
        }),
    decreases levels,
{
    let zero = Double::from_bits(ZERO);
    let one = Double::from_bits(ONE);
    let buys = |q: OrderIntent| q.side == Side::Buy;
    let sells = |q: OrderIntent| q.side == Side::Sell;
    if levels <= 0 {
        reveal(Seq::filter);
        assert(ladder(c, config, seen, venue, levels).len() == 0);
    } else {
        let n = levels - 1;
        lemma_sides(c, config, seen, venue, n);
        let before = ladder(c, config, seen, venue, n);
        let last = rung(c, config, seen, venue, n);
        Seq::filter_distributes_over_add(before, last, buys);
        Seq::filter_distributes_over_add(before, last, sells);
        let bids = quotes_of(before, Side::Buy);
        let asks = quotes_of(before, Side::Sell);
        let bid = bid_at(c, config, seen, venue, n);
        let ask = ask_at(c, config, seen, venue, n);
        lemma_level(c, config, seen, venue, n);
        lemma_rung(c, config, seen, venue, n);
        if bid.gt(zero) && bids.len() < n {
            lemma_level(c, config, seen, venue, bids.len() as int);
            lemma_deeper_bid(c, config, seen, venue, bids.len() as int, n);
        }
        if ask.lt(one) && asks.len() < n {
            lemma_deeper_bid(c, config, seen, venue, asks.len() as int, n);
        }
        let all = ladder(c, config, seen, venue, levels);
        let b = quotes_of(all, Side::Buy);
        let a = quotes_of(all, Side::Sell);
        assert(b =~= bids + last.filter(buys));
        assert(a =~= asks + last.filter(sells));
        assert forall|k: int| 0 <= k < b.len() implies (#[trigger] b[k]).price == bid_at(
            c,
            config,
            seen,
            venue,
            k,
        ) && b[k].price.gt(zero) by {
            if k < bids.len() {
                assert(b[k] == bids[k]);
            }
        }
        assert forall|k: int| 0 <= k < a.len() implies (#[trigger] a[k]).price == ask_at(
            c,
            config,
            seen,
            venue,
            k,
        ) && a[k].price.lt(one) by {
            if k < asks.len() {
                assert(a[k] == asks[k]);
            }
        }
    }
}

/// Where a deeper level has a quote, so has every level before it.
proof fn lemma_deeper_bid(
    c: &Arithmetic,
    config: MarketMakingConfig,
    seen: Snapshot,
    venue: VenueId,
    near: int,
    far: int,
)
    requires
        c.is_ieee(),
        c.keeps_order(),
        c.rounds(),
        c.rounds_differences(),
        is_ordinary_ladder(c, config, seen, venue),
        0 <= near <= far <= 0x10_0000,
    ensures
        bid_at(c, config, seen, venue, far).gt(Double::from_bits(ZERO)) ==> bid_at(
            c,
            config,
            seen,
            venue,
            near,
        ).gt(Double::from_bits(ZERO)),
        ask_at(c, config, seen, venue, far).lt(Double::from_bits(ONE)) ==> ask_at(
            c,
            config,
            seen,
            venue,
            near,
        ).lt(Double::from_bits(ONE)),
{
    reveal(Arithmetic::rounds_sums);
    reveal(Arithmetic::rounds_products);
    reveal(Arithmetic::rounds_counts);
    reveal(Arithmetic::rounds_differences);
    let zero = Double::from_bits(ZERO);
    let middle = center(c, config, seen, venue);
    let half = half_spread(c, config, seen, venue);
    let s = config.level_spacing;
    law_powers_are_ordered(-20, 0);
    let (m, n) = (c.of_count(near as u64), c.of_count(far as u64));
    assert(m.le(n));
    let (x, y) = (c.times(m, s), c.times(n, s));
    assert(zero.le(x) && zero.le(y));
    assert(x.le(y));
    let (p, q) = (c.plus(half, x), c.plus(half, y));
    assert(zero.le(p) && zero.le(q));
    assert(p.le(q));
    assert(middle.is_finite());
    assert(!c.minus(middle, p).is_nan() && !c.minus(middle, q).is_nan());
    assert(c.minus(middle, q).le(c.minus(middle, p)));
    assert(zero.le(c.plus(middle, p)) && zero.le(c.plus(middle, q)));
    assert(c.plus(middle, p).le(c.plus(middle, q)));
}

proof fn lemma_rung(
    c: &Arithmetic,
    config: MarketMakingConfig,
    seen: Snapshot,
    venue: VenueId,
    level: int,
)
    requires
        is_ordinary_ladder(c, config, seen, venue),
        bid_at(c, config, seen, venue, level).gt(Double::from_bits(ZERO)) ==> bid_at(
            c,
            config,
            seen,
            venue,
            level,
        ).le(Double::from_bits(ONE)),
        ask_at(c, config, seen, venue, level).lt(Double::from_bits(ONE)) ==> Double::from_bits(
            ZERO,
        ).le(ask_at(c, config, seen, venue, level)),
    ensures
        ({
            let last = rung(c, config, seen, venue, level);
            let bid = bid_at(c, config, seen, venue, level);
            let ask = ask_at(c, config, seen, venue, level);
            let b = last.filter(|q: OrderIntent| q.side == Side::Buy);
            let a = last.filter(|q: OrderIntent| q.side == Side::Sell);
            &&& b.len() == (if bid.gt(Double::from_bits(ZERO)) { 1int } else { 0int })
            &&& a.len() == (if ask.lt(Double::from_bits(ONE)) { 1int } else { 0int })
            &&& b.len() == 1 ==> b[0].price == bid
            &&& a.len() == 1 ==> a[0].price == ask
        }),
{
    reveal_with_fuel(Seq::filter, 3);
    let last = rung(c, config, seen, venue, level);
    assert(last.len() > 0 ==> last.drop_last().len() == last.len() - 1);
    assert(last.len() == 2 ==> last.drop_last().drop_last().len() == 0);
    assert(last.len() == 2 ==> last.drop_last().last() == last[0]);
}

/// A ladder is a ladder: its bids fall and its asks rise from level to level by the spacing, up to
/// rounding, so no two quotes of a side share a price; the innermost pair lies the half-spread away
/// from the centre on either side; and each side has a quote for every level that is still a price.
pub proof fn law_levels_move_outwards_by_the_spacing(
    c: &Arithmetic,
    config: MarketMakingConfig,
    seen: Snapshot,
    venue: VenueId,
    levels: int,
    i: int,
    j: int,
)
    requires
        c.is_ieee(),
        c.keeps_order(),
        c.rounds(),
        c.rounds_differences(),
        c.is_accurate(),
        is_ordinary_ladder(c, config, seen, venue),
        0 <= levels <= 0x10_0000,
        0 <= i < j,
    ensures
        ({
            let bids = quotes_of(ladder(c, config, seen, venue, levels), Side::Buy);
            let asks = quotes_of(ladder(c, config, seen, venue, levels), Side::Sell);
            let middle = center(c, config, seen, venue).exact();
            let half = half_spread(c, config, seen, venue).exact();
            let step = config.level_spacing.exact();
            let tiny = two_to(-53).exact();
            &&& j < bids.len() ==> {
                &&& bids[j].price.lt(bids[i].price)
                &&& gap(bids[i].price.exact() - bids[j].price.exact(), (j - i) * step) <= 6 * tiny
            }
            &&& j < asks.len() ==> {
                &&& asks[i].price.lt(asks[j].price)
                &&& gap(asks[j].price.exact() - asks[i].price.exact(), (j - i) * step) <= 6 * tiny
            }
            &&& bids.len() > 0 ==> gap(bids[0].price.exact(), middle - half) <= 3 * tiny
            &&& asks.len() > 0 ==> gap(asks[0].price.exact(), middle + half) <= 3 * tiny
            &&& bids.len() < levels ==> middle - half - bids.len() * step <= 3 * tiny
            &&& asks.len() < levels ==> middle + half + asks.len() * step >= unit() - 3 * tiny
        }),
{
    let zero = Double::from_bits(ZERO);
    let one = Double::from_bits(ONE);
    let all = ladder(c, config, seen, venue, levels);
    let bids = quotes_of(all, Side::Buy);
    let asks = quotes_of(all, Side::Sell);
    let step = config.level_spacing.exact();
    lemma_sides(c, config, seen, venue, levels);
    lemma_exact_power(-53);
    lemma_powers_apart();
    law_exact_orders(two_to(-20), config.level_spacing);
    law_powers_are_ordered(-20, 0);
    assert(step >= 64 * two_to(-53).exact());
    if j < bids.len() {
        lemma_level(c, config, seen, venue, i);
        lemma_level(c, config, seen, venue, j);
        lemma_spread_out(i, j, step, two_to(-53).exact());
        law_exact_orders(bids[i].price, bids[j].price);
    }
    if j < asks.len() {
        lemma_level(c, config, seen, venue, i);
        lemma_level(c, config, seen, venue, j);
        lemma_spread_out(i, j, step, two_to(-53).exact());
        law_exact_orders(asks[j].price, asks[i].price);
    }
    lemma_level(c, config, seen, venue, 0);
    assert(0 * step == 0);
    if bids.len() < levels {
        lemma_no_quote(c, config, seen, venue, bids.len() as int);
    }
    if asks.len() < levels {
        lemma_no_quote(c, config, seen, venue, asks.len() as int);
    }
}

proof fn lemma_powers_apart()
    ensures
        two_to(-20).exact() >= 64 * two_to(-53).exact(),
{
    lemma_exact_power(-53);
    lemma_exact_power(-52);
    lemma_exact_power(-51);
    lemma_exact_power(-50);
    lemma_exact_power(-49);
    lemma_exact_power(-48);
    law_powers_are_ordered(-47, -20);
    law_exact_orders(two_to(-47), two_to(-20));
}

proof fn lemma_spread_out(i: int, j: int, step: int, tiny: int)
    requires
        0 <= i < j,
        step >= 64 * tiny,
        tiny > 0,
    ensures
        j * step - i * step == (j - i) * step,
        (j - i) * step >= 64 * tiny,
{
    assert(j * step - i * step == (j - i) * step) by (nonlinear_arith);
    assert((j - i) * step >= step) by (nonlinear_arith)
        requires
            j - i >= 1,
            step >= 0,
    ;
}

proof fn lemma_no_quote(
    c: &Arithmetic,
    config: MarketMakingConfig,
    seen: Snapshot,
    venue: VenueId,
    level: int,
)
    requires
        c.is_ieee(),
        c.keeps_order(),
        c.rounds(),
        c.rounds_differences(),
        c.is_accurate(),
        is_ordinary_ladder(c, config, seen, venue),
        0 <= level <= 0x10_0000,
    ensures
        ({
            let middle = center(c, config, seen, venue).exact();
            let half = half_spread(c, config, seen, venue).exact();
            let far = half + level * config.level_spacing.exact();
            let tiny = two_to(-53).exact();
            &&& !bid_at(c, config, seen, venue, level).gt(Double::from_bits(ZERO)) ==> middle - far
                <= 3 * tiny
            &&& !ask_at(c, config, seen, venue, level).lt(Double::from_bits(ONE)) ==> middle + far
                >= unit() - 3 * tiny
        }),
{
    reveal(Arithmetic::rounds_sums);
    reveal(Arithmetic::rounds_differences);
    reveal(Arithmetic::is_accurate);
    let zero = Double::from_bits(ZERO);
    let one = Double::from_bits(ONE);
    let middle = center(c, config, seen, venue);
    let half = half_spread(c, config, seen, venue);
    let off = offset(c, config, seen, venue, level);
    let step = config.level_spacing;
    let n = c.of_count(level as u64);
    let u = unit();
    law_powers_are_ordered(-20, 0);
    lemma_exact_power(-53);
    lemma_exact_power(0);
    assert(two_to(0) == one);
    law_exact_orders(zero, half);
    law_exact_orders(zero, step);
    law_exact_orders(zero, middle);
    law_exact_orders(middle, one);
    let far = half.exact() + level * step.exact();
    let tiny = two_to(-53).exact();
    let x_step = step.exact();
    assert(level * x_step >= 0) by (nonlinear_arith)
        requires
            level >= 0,
            x_step >= 0,
    ;
    let x_step = step.exact();
    let x_n = n.exact();
    assert(x_n * x_step == level * x_step * u) by (nonlinear_arith)
        requires
            x_n == level * u,
    ;
    if far <= u - 3 * tiny {
        let out = c.times(n, step);
        let x_step = step.exact();
        let x_n = n.exact();
        assert(gap(x_n * x_step, 0) <= u * u) by (nonlinear_arith)
            requires
                x_n * x_step == level * x_step * u,
                0 <= level * x_step <= u,
        ;
        assert(gap(out.exact() * u, n.exact() * step.exact()) <= tiny * u);
        let x_step = step.exact();
        let x_out = out.exact();
        let x_n = n.exact();
        assert(gap(x_out, level * x_step) <= tiny) by (nonlinear_arith)
            requires
                u > 0,
                x_n * x_step == level * x_step * u,
                gap(x_out * u, x_n * x_step) <= tiny * u,
        ;
        assert(out.is_finite());
        assert(zero.le(out));
        law_exact_orders(zero, out);
        assert(gap(half.exact() + out.exact(), 0) <= u);
        assert(gap(off.exact(), half.exact() + out.exact()) <= tiny);
        law_exact_orders(off, middle);
        law_exact_orders(middle, off);
        assert(off.is_finite());
        if middle.exact() - far > 3 * tiny {
            assert(off.lt(middle));
            assert(zero.lt(c.minus(middle, off)));
        }
        if middle.exact() + far < u - 3 * tiny {
            let ask = c.plus(middle, off);
            assert(gap(middle.exact() + off.exact(), 0) <= u) by {
                law_exact_orders(zero, off);
                assert(zero.le(off));
            }
            assert(gap(ask.exact(), middle.exact() + off.exact()) <= tiny);
            law_exact_orders(one, ask);
        }
    }
}

/// The venue that is quoted is one that quotes the contract, and no other that does is likelier to
/// fill. The engine puts up its whole ladder there and nothing anywhere else.
pub proof fn law_the_likeliest_venue_is_quoted(
    c: &Arithmetic,
    engine: &MarketMakingEngine,
    seen: Snapshot,
    i: int,
)
    requires
        0 <= i < seen.book.quotes(seen.contract@).len(),
        forall|v: VenueId| !(#[trigger] seen.calibration.expected(v)).fill_probability.is_nan(),
    ensures
        exists|k: int|
            0 <= k < seen.book.quotes(seen.contract@).len() && {
                let venue = (#[trigger] seen.book.quotes(seen.contract@)[k]).venue;
                let other = seen.book.quotes(seen.contract@)[i].venue;
                &&& engine.proposals(c, seen) == ladder(
                    c,
                    engine.config,
                    seen,
                    venue,
                    engine.config.ladder_levels as int,
                )
                &&& seen.calibration.expected(other).fill_probability.le(
                    seen.calibration.expected(venue).fill_probability,
                )
            },
{
    let quotes = seen.book.quotes(seen.contract@);
    let k = lemma_likeliest(quotes, seen.calibration, i);
    assert(quotes[k].venue == likeliest(quotes, seen.calibration));
}

proof fn lemma_likeliest(quotes: Seq<NormalizedTick>, known: CalibrationState, i: int) -> (k: int)
    requires
        0 <= i < quotes.len(),
        forall|v: VenueId| !(#[trigger] known.expected(v)).fill_probability.is_nan(),
    ensures
        0 <= k < quotes.len(),
        quotes[k].venue == likeliest(quotes, known),
        known.expected(quotes[i].venue).fill_probability.le(
            known.expected(likeliest(quotes, known)).fill_probability,
        ),
    decreases quotes.len(),
{
    let n = quotes.len() - 1;
    assert(quotes.last() == quotes[n]);
    if n == 0 {
        0
    } else {
        let rest = quotes.drop_last();
        let j = if i < n {
            i
        } else {
            0
        };
        let k = lemma_likeliest(rest, known, j);
        assert(rest[k] == quotes[k] && rest[j] == quotes[j]);
        let best = likeliest(rest, known);
        assert(!known.expected(best).fill_probability.is_nan());
        assert(!known.expected(quotes[n].venue).fill_probability.is_nan());
        if known.expected(quotes[n].venue).fill_probability.lt(
            known.expected(best).fill_probability,
        ) {
            k
        } else {
            n
        }
    }
}

/// A ladder leans against what is held: the more is held at the venue, the lower its centre; with
/// nothing held the centre is the fair value, and otherwise the fair value less the holding times
/// the sensitivity, kept a probability.
pub proof fn law_ladder_leans_against_the_holding(
    c: &Arithmetic,
    config: MarketMakingConfig,
    less: Snapshot,
    more: Snapshot,
    venue: VenueId,
)
    requires
        c.is_ieee(),
        c.keeps_order(),
        c.rounds(),
        c.rounds_differences(),
        less.fair_value.midpoint == more.fair_value.midpoint,
        Double::from_bits(ZERO).le(less.fair_value.midpoint),
        less.fair_value.midpoint.le(Double::from_bits(ONE)),
        config.inventory_skew_sensitivity.ge(Double::from_bits(ZERO)),
        config.inventory_skew_sensitivity.is_finite(),
        less.inventory.at(venue) matches Some(q) ==> q.is_finite(),
        more.inventory.at(venue) matches Some(q) ==> q.is_finite(),
    ensures
        ({
            let zero = Double::from_bits(ZERO);
            let a = match less.inventory.at(venue) {
                Some(q) => q,
                None => zero,
            };
            let b = match more.inventory.at(venue) {
                Some(q) => q,
                None => zero,
            };
            let fair = less.fair_value.midpoint;
            let (x, y) = (center(c, config, less, venue), center(c, config, more, venue));
            &&& a.le(b) ==> y.le(x)
            &&& a.is_zero() ==> x.same(fair)
            &&& a.ge(zero) ==> x.le(fair)
            &&& a.le(zero) ==> fair.le(x)
            &&& zero.le(x) && x.le(Double::from_bits(ONE))
            &&& zero.lt(x) && x.lt(Double::from_bits(ONE)) ==> x == c.minus(
                fair,
                c.times(config.inventory_skew_sensitivity, a),
            )
        }),
{
    let zero = Double::from_bits(ZERO);
    let one = Double::from_bits(ONE);
    let a = match less.inventory.at(venue) {
        Some(q) => q,
        None => zero,
    };
    let b = match more.inventory.at(venue) {
        Some(q) => q,
        None => zero,
    };
    let k = config.inventory_skew_sensitivity;
    let fair = less.fair_value.midpoint;
    reveal(Arithmetic::rounds_differences);
    crate::sim::equity::lemma_product_sign(c, k, a);
    crate::sim::equity::lemma_product_sign(c, k, b);
    let (s, t) = (c.times(k, a), c.times(k, b));
    assert(a.le(b) ==> s.le(t));
    assert(!c.minus(fair, s).is_nan() && !c.minus(fair, t).is_nan());
    assert(a.le(b) ==> c.minus(fair, t).le(c.minus(fair, s)));
    assert(a.ge(zero) ==> c.minus(fair, s).le(fair));
    if a.le(zero) {
        assert(s.le(zero));
        assert(c.minus(fair, zero).le(c.minus(fair, s)));
        assert(c.minus(fair, zero) == c.plus(fair, zero.neg()));
        assert(zero.neg().is_zero());
    }
}

/// The half-spread is the least one and a share of the band's half-width together, or the fees of a
/// round trip where these are more: it is below neither, and a wider band never narrows it.
pub proof fn law_half_spread_widens_with_the_band(
    c: &Arithmetic,
    config: MarketMakingConfig,
    calm: Snapshot,
    torn: Snapshot,
    venue: VenueId,
)
    requires
        c.is_ieee(),
        c.keeps_order(),
        c.rounds(),
        center(c, config, calm, venue) == center(c, config, torn, venue),
        config.base_half_spread.ge(Double::from_bits(ZERO)),
        config.base_half_spread.is_finite(),
        config.band_multiplier.ge(Double::from_bits(ZERO)),
        config.band_multiplier.is_finite(),
        calm.fair_value.width(c).le(torn.fair_value.width(c)),
        calm.fair_value.width(c).ge(Double::from_bits(ZERO)),
        torn.fair_value.width(c).is_finite(),
    ensures
        ({
            let x = half_spread(c, config, calm, venue);
            let y = half_spread(c, config, torn, venue);
            let share = c.times(
                config.band_multiplier,
                c.over(calm.fair_value.width(c), Double::from_bits(TWO)),
            );
            let wide = c.plus(config.base_half_spread, share);
            let middle = center(c, config, calm, venue);
            let fees = config.fees.at(venue).round_trip_of(c, middle);
            &&& x.le(y)
            &&& config.base_half_spread.le(x)
            &&& share.le(x)
            &&& wide.le(x)
            &&& x == wide || x == fees
        }),
{
    reveal(Arithmetic::rounds_sums);
    reveal(Arithmetic::rounds_products);
    reveal(Arithmetic::rounds_quotients);
    let zero = Double::from_bits(ZERO);
    let two = Double::from_bits(TWO);
    let (v, w) = (c.over(calm.fair_value.width(c), two), c.over(torn.fair_value.width(c), two));
    assert(zero.le(v) && zero.le(w));
    assert(v.le(w));
    let one = Double::from_bits(ONE);
    assert(c.over(torn.fair_value.width(c), one) == torn.fair_value.width(c));
    assert(w.le(torn.fair_value.width(c)));
    let (s, t) = (c.times(config.band_multiplier, v), c.times(config.band_multiplier, w));
    assert(zero.le(s) && zero.le(t));
    assert(s.le(t));
    crate::risk::exposure::lemma_sum_covers(c, config.base_half_spread, s);
    crate::risk::exposure::lemma_sum_covers(c, config.base_half_spread, t);
    assert(c.plus(config.base_half_spread, s).le(c.plus(config.base_half_spread, t)));
}

} // verus!
