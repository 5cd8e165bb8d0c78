//! Directional orders where a price lies fully outside the band.
use vstd::prelude::*;
use crate::double::{Arithmetic, Double, ZERO};
use crate::strategy::engine;
use crate::strategy::engine::{Snapshot, StrategyEngine, StrategyInput};
use crate::types::market::NormalizedTick;
use crate::types::orders::{EngineId, OrderIntent, OrderType, Side};
use crate::types::validate;

verus! {

/// 0.25
pub const DEFAULT_FRACTION: u64 = 0x3FD0_0000_0000_0000;

/// 200.0
pub const DEFAULT_MAX_SIZE: u64 = 0x4069_0000_0000_0000;

/// 1e-6
pub const WIDTH_FLOOR: u64 = 0x3EB0_C6F7_A0B5_ED8D;

#[derive(Debug, Clone, Copy, PartialEq, Eq, Structural)]
pub struct StatArbConfig {
    /// The fraction of the size implied by the edge that is taken.
    pub kelly_fraction_cap: Double,
    pub max_order_size: Double,
}

impl StatArbConfig {
    /// The usual configuration.
    pub open spec fn usual() -> StatArbConfig {
        StatArbConfig {
            kelly_fraction_cap: Double::from_bits(DEFAULT_FRACTION),
            max_order_size: Double::from_bits(DEFAULT_MAX_SIZE),
        }
    }
}

impl Default for StatArbConfig {
    fn default() -> (r: StatArbConfig)
        ensures
            r == StatArbConfig::usual(),
    {
        StatArbConfig {
            kelly_fraction_cap: Double::from_bits(DEFAULT_FRACTION),
            max_order_size: Double::from_bits(DEFAULT_MAX_SIZE),
        }
    }
}

/// The size for an edge, in proportion to the band's own width, within the largest size.
pub open spec fn size_for(
    c: &Arithmetic,
    config: StatArbConfig,
    edge: Double,
    band_width: Double,
) -> Double {
    c.times(
        c.times(
            config.max_order_size,
            c.over(edge, band_width.larger(Double::from_bits(WIDTH_FLOOR))),
        ),
        config.kelly_fraction_cap,
    ).clamp(Double::from_bits(ZERO), config.max_order_size)
}

/// A list of the order, if its size is positive.
pub open spec fn sized(order: OrderIntent) -> Seq<OrderIntent> {
    if order.size.gt(Double::from_bits(ZERO)) {
        seq![order]
    } else {
        Seq::empty()
    }
}

/// What one quote calls for: a buy of an ask below the band, a sale to a bid above it.
pub open spec fn trades_on(
    c: &Arithmetic,
    config: StatArbConfig,
    seen: Snapshot,
    tick: NormalizedTick,
) -> Seq<OrderIntent> {
    let low = seen.fair_value.band_low;
    let high = seen.fair_value.band_high;
    let width = seen.fair_value.width(c);
    (if tick.ask.lt(low) {
        sized(
            engine::order(
                seen,
                tick.venue,
                Side::Buy,
                tick.ask,
                size_for(c, config, c.minus(low, tick.ask), width),
                OrderType::Limit,
                EngineId::StatArb,
            ),
        )
    } else {
        Seq::empty()
    }) + (if tick.bid.gt(high) {
        sized(
            engine::order(
                seen,
                tick.venue,
                Side::Sell,
                tick.bid,
                size_for(c, config, c.minus(tick.bid, high), width),
                OrderType::Limit,
                EngineId::StatArb,
            ),
        )
    } else {
        Seq::empty()
    })
}

/// What the quotes call for, in order.
pub open spec fn trades(
    c: &Arithmetic,
    config: StatArbConfig,
    seen: Snapshot,
    quotes: Seq<NormalizedTick>,
) -> Seq<OrderIntent>
    decreases quotes.len(),
{
    if quotes.len() == 0 {
        Seq::empty()
    } else {
        trades(c, config, seen, quotes.drop_last()) + trades_on(c, config, seen, quotes.last())
    }
}

/// Trades only where a venue's price lies fully outside the band, not merely away from the
/// midpoint.
#[derive(Debug)]
pub struct StatArbEngine {
    pub config: StatArbConfig,
}

impl StatArbEngine {
    pub fn new(config: StatArbConfig) -> (r: StatArbEngine)
        ensures
            r == (StatArbEngine { config }),
    {
        StatArbEngine { config }
    }

    fn size_for_edge(&self, c: &Arithmetic, edge: Double, band_width: Double) -> (r: Double)
        ensures
            r == size_for(c, self.config, edge, band_width),
    {
        let normalized = c.over(edge, band_width.larger(Double::from_bits(WIDTH_FLOOR)));
        c.times(
            c.times(self.config.max_order_size, normalized),
            self.config.kelly_fraction_cap,
        ).clamp(Double::from_bits(ZERO), self.config.max_order_size)
    }
}

impl StrategyEngine for StatArbEngine {
    open spec fn identity(&self) -> EngineId {
        EngineId::StatArb
    }

    open spec fn proposals(&self, c: &Arithmetic, seen: Snapshot) -> Seq<OrderIntent> {
        trades(c, self.config, seen, seen.book.quotes(seen.contract@))
    }

    fn id(&self) -> (r: EngineId) {
        EngineId::StatArb
    }

    fn evaluate(&self, c: &Arithmetic, input: &StrategyInput) -> (r: Vec<OrderIntent>) {
        let zero = Double::from_bits(ZERO);
        let band_width = input.fair_value.band_width(c);
        let quotes = input.book.quotes(input.contract);
        let mut intents: Vec<OrderIntent> = Vec::new();
        let mut i: usize = 0;
        while i < quotes.len()
            invariant
                i <= quotes.len(),
                zero == Double::from_bits(ZERO),
                band_width == input@.fair_value.width(c),
                intents@ == trades(c, self.config, input@, quotes@.take(i as int)),
            decreases quotes.len() - i,
        {
            let tick = &quotes[i];
            let ghost before = intents@;
            if tick.ask.lt(input.fair_value.band_low) {
                let edge = c.minus(input.fair_value.band_low, tick.ask);
                let size = self.size_for_edge(c, edge, band_width);
                if size.gt(zero) {
                    intents.push(
                        engine::make_order(
                            input,
                            tick.venue,
                            Side::Buy,
                            tick.ask,
                            size,
                            OrderType::Limit,
                            EngineId::StatArb,
                        ),
                    );
                }
            }
            if tick.bid.gt(input.fair_value.band_high) {
                let edge = c.minus(tick.bid, input.fair_value.band_high);
                let size = self.size_for_edge(c, edge, band_width);
                if size.gt(zero) {
                    intents.push(
                        engine::make_order(
                            input,
                            tick.venue,
                            Side::Sell,
                            tick.bid,
                            size,
                            OrderType::Limit,
                            EngineId::StatArb,
                        ),
                    );
                }
            }
            assert(intents@ == before + trades_on(c, self.config, input@, *tick));
            assert(quotes@.take(i + 1).drop_last() == quotes@.take(i as int));
            i += 1;
        }
        assert(quotes@.take(i as int) == quotes@);
        intents
    }
}

/// A quote that touches the band calls for nothing.
pub proof fn law_no_trade_inside_the_band(
    c: &Arithmetic,
    config: StatArbConfig,
    seen: Snapshot,
    tick: NormalizedTick,
)
    requires
        !tick.ask.lt(seen.fair_value.band_low),
        !tick.bid.gt(seen.fair_value.band_high),
    ensures
        trades_on(c, config, seen, tick).len() == 0,
{
}

/// Every order has a positive size that is within the largest one.
pub proof fn law_size_is_capped(
    c: &Arithmetic,
    config: StatArbConfig,
    seen: Snapshot,
    tick: NormalizedTick,
    i: int,
)
    requires
        Double::from_bits(ZERO).le(config.max_order_size),
        0 <= i < trades_on(c, config, seen, tick).len(),
    ensures
        trades_on(c, config, seen, tick)[i].size.gt(Double::from_bits(ZERO)),
        trades_on(c, config, seen, tick)[i].size.le(config.max_order_size),
{
}

/// A trade is made only outside the band, towards it: a buy of an ask below the band, a sale to a
/// bid above it, at the price of a quote of the venue that is traded. And every quote outside the
/// band is traded, as far as it calls for any size.
pub proof fn law_trades_are_the_quotes_outside_the_band(
    c: &Arithmetic,
    engine: &StatArbEngine,
    seen: Snapshot,
    i: int,
    k: int,
)
    ensures
        ({
            let quotes = seen.book.quotes(seen.contract@);
            let orders = engine.proposals(c, seen);
            let low = seen.fair_value.band_low;
            let high = seen.fair_value.band_high;
            let width = seen.fair_value.width(c);
            let config = engine.config;
            &&& 0 <= i < orders.len() ==> {
                let o = orders[i];
                &&& o.contract == seen.contract
                &&& o.created_at == seen.now
                &&& o.engine == EngineId::StatArb
                &&& o.order_type == OrderType::Limit
                &&& o.size.gt(Double::from_bits(ZERO))
                &&& exists|j: int|
                    0 <= j < quotes.len() && {
                        let t = #[trigger] quotes[j];
                        &&& o.venue == t.venue
                        &&& match o.side {
                            Side::Buy => {
                                &&& o.price == t.ask
                                &&& t.ask.lt(low)
                                &&& o.size == size_for(c, config, c.minus(low, t.ask), width)
                            },
                            Side::Sell => {
                                &&& o.price == t.bid
                                &&& high.lt(t.bid)
                                &&& o.size == size_for(c, config, c.minus(t.bid, high), width)
                            },
                        }
                    }
            }
            &&& 0 <= k < quotes.len() ==> {
                let t = quotes[k];
                &&& t.ask.lt(low) && size_for(c, config, c.minus(low, t.ask), width).gt(
                    Double::from_bits(ZERO),
                ) ==> exists|j: int|
                    0 <= j < orders.len() && (#[trigger] orders[j]).side == Side::Buy
                        && orders[j].venue == t.venue && orders[j].price == t.ask
                &&& high.lt(t.bid) && size_for(c, config, c.minus(t.bid, high), width).gt(
                    Double::from_bits(ZERO),
                ) ==> exists|j: int|
                    0 <= j < orders.len() && (#[trigger] orders[j]).side == Side::Sell
                        && orders[j].venue == t.venue && orders[j].price == t.bid
            }
        }),
{
    let quotes = seen.book.quotes(seen.contract@);
    let orders = engine.proposals(c, seen);
    let zero = Double::from_bits(ZERO);
    let config = engine.config;
    if 0 <= i < orders.len() {
        let (j, m) = lemma_source(c, config, seen, quotes, i);
        let t = quotes[j];
        assert(orders[i] == trades_on(c, config, seen, t)[m]);
    }
    if 0 <= k < quotes.len() {
        let t = quotes[k];
        let on = trades_on(c, config, seen, t);
        let low = seen.fair_value.band_low;
        let high = seen.fair_value.band_high;
        let width = seen.fair_value.width(c);
        if t.ask.lt(low) && size_for(c, config, c.minus(low, t.ask), width).gt(zero) {
            let j = lemma_taken(c, config, seen, quotes, k, 0);
            assert(orders[j] == on[0]);
        }
        if high.lt(t.bid) && size_for(c, config, c.minus(t.bid, high), width).gt(zero) {
            let m = on.len() - 1;
            let j = lemma_taken(c, config, seen, quotes, k, m);
            assert(orders[j] == on[m]);
        }
    }
}

/// A larger edge is traded in a larger size, a wider band in a smaller one, and never more than the
/// largest size: below that the size is the largest one times the edge in widths of the band, times
/// the fraction. Twice the edge of a narrow band is not less than once.
pub proof fn law_size_follows_the_edge(
    c: &Arithmetic,
    config: StatArbConfig,
    small: Double,
    large: Double,
    narrow: Double,
    wide: Double,
)
    requires
        c.is_ieee(),
        c.keeps_order(),
        c.rounds(),
        validate::is_non_negative(config.max_order_size),
        validate::is_non_negative(config.kelly_fraction_cap),
        validate::is_non_negative(small),
        validate::is_non_negative(large),
        validate::is_non_negative(narrow),
        validate::is_non_negative(wide),
        small.le(large),
        narrow.le(wide),
        c.times(config.max_order_size, c.over(large, narrow.larger(
            Double::from_bits(WIDTH_FLOOR),
        ))).is_finite(),
        c.over(large, narrow.larger(Double::from_bits(WIDTH_FLOOR))).is_finite(),
    ensures
        ({
            let floor = Double::from_bits(WIDTH_FLOOR);
            let s = size_for(c, config, small, narrow);
            let l = size_for(c, config, large, narrow);
            let w = size_for(c, config, large, wide);
            let most = config.max_order_size;
            let share = if narrow.lt(floor) {
                c.over(large, floor)
            } else {
                c.over(large, narrow)
            };
            &&& s.le(l)
            &&& w.le(l)
            &&& l.le(most)
            &&& Double::from_bits(ZERO).le(s)
            &&& l.lt(most) ==> l.same(c.times(c.times(most, share), config.kelly_fraction_cap))
        }),
{
    reveal(Arithmetic::rounds_products);
    reveal(Arithmetic::rounds_quotients);
    let zero = Double::from_bits(ZERO);
    let floor = Double::from_bits(WIDTH_FLOOR);
    let (n, v) = (narrow.larger(floor), wide.larger(floor));
    let (a, b, d) = (c.over(small, n), c.over(large, n), c.over(large, v));
    assert(zero.le(a) && zero.le(b) && zero.le(d));
    assert(a.le(b) && d.le(b));
    let most = config.max_order_size;
    let k = config.kelly_fraction_cap;
    let (x, y, z) = (c.times(most, a), c.times(most, b), c.times(most, d));
    assert(zero.le(x) && zero.le(y) && zero.le(z));
    assert(x.le(y) && z.le(y));
    assert(zero.le(c.times(x, k)) && zero.le(c.times(y, k)) && zero.le(c.times(z, k)));
    assert(c.times(x, k).le(c.times(y, k)));
    assert(c.times(z, k).le(c.times(y, k)));
}

proof fn lemma_source(
    c: &Arithmetic,
    config: StatArbConfig,
    seen: Snapshot,
    quotes: Seq<NormalizedTick>,
    i: int,
) -> (r: (int, int))
    requires
        0 <= i < trades(c, config, seen, quotes).len(),
    ensures
        0 <= r.0 < quotes.len(),
        0 <= r.1 < trades_on(c, config, seen, quotes[r.0]).len(),
        trades(c, config, seen, quotes)[i] == trades_on(c, config, seen, quotes[r.0])[r.1],
    decreases quotes.len(),
{
    let rest = quotes.drop_last();
    let n = quotes.len() - 1;
    let before = trades(c, config, seen, rest);
    assert(quotes.last() == quotes[n]);
    if i < before.len() {
        let r = lemma_source(c, config, seen, rest, i);
        assert(rest[r.0] == quotes[r.0]);
        r
    } else {
        (n, i - before.len())
    }
}

proof fn lemma_taken(
    c: &Arithmetic,
    config: StatArbConfig,
    seen: Snapshot,
    quotes: Seq<NormalizedTick>,
    k: int,
    m: int,
) -> (j: int)
    requires
        0 <= k < quotes.len(),
        0 <= m < trades_on(c, config, seen, quotes[k]).len(),
    ensures
        0 <= j < trades(c, config, seen, quotes).len(),
        trades(c, config, seen, quotes)[j] == trades_on(c, config, seen, quotes[k])[m],
    decreases quotes.len(),
{
    let rest = quotes.drop_last();
    let n = quotes.len() - 1;
    let before = trades(c, config, seen, rest);
    assert(quotes.last() == quotes[n]);
    if k < n {
        assert(rest[k] == quotes[k]);
        lemma_taken(c, config, seen, rest, k, m)
    } else {
        before.len() + m
    }
}

} // verus!
