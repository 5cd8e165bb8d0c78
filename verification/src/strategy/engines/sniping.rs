//! Immediate orders against quotes that a fresh fair value shows to be mispriced.
use vstd::prelude::*;
use crate::double::{Arithmetic, Double, ZERO};
use crate::strategy::engine;
use crate::strategy::engine::{Snapshot, StrategyEngine, StrategyInput};
use crate::strategy::engines::stat_arb;
use crate::types::market::NormalizedTick;
use crate::types::orders::{EngineId, OrderIntent, OrderType, Side};

verus! {

/// 300.0
pub const DEFAULT_MAX_SIZE: u64 = 0x4072_C000_0000_0000;

/// 0.03
pub const DEFAULT_MIN_EDGE: u64 = 0x3F9E_B851_EB85_1EB8;

#[derive(Debug, Clone, Copy, PartialEq, Eq, Structural)]
pub struct SnipingConfig {
    pub max_order_size: Double,
    /// How far outside the band a quote must lie. The whole resting quote is taken at once, so
    /// merely being outside is not enough.
    pub min_edge: Double,
}

impl SnipingConfig {
    /// The usual configuration.
    pub open spec fn usual() -> SnipingConfig {
        SnipingConfig {
            max_order_size: Double::from_bits(DEFAULT_MAX_SIZE),
            min_edge: Double::from_bits(DEFAULT_MIN_EDGE),
        }
    }
}

impl Default for SnipingConfig {
    fn default() -> (r: SnipingConfig)
        ensures
            r == SnipingConfig::usual(),
    {
        SnipingConfig {
            max_order_size: Double::from_bits(DEFAULT_MAX_SIZE),
            min_edge: Double::from_bits(DEFAULT_MIN_EDGE),
        }
    }
}

/// What one quote calls for: nothing where the fair value is older than the quote, else the
/// resting size, within the largest size, of a side that lies far enough outside the band.
pub open spec fn snipes_on(
    c: &Arithmetic,
    config: SnipingConfig,
    seen: Snapshot,
    tick: NormalizedTick,
) -> Seq<OrderIntent> {
    let low = seen.fair_value.band_low;
    let high = seen.fair_value.band_high;
    if seen.fair_value.as_of.age(tick.receive_ts) < 0 {
        Seq::empty()
    } else {
        (if tick.ask.lt(low) && c.minus(low, tick.ask).ge(config.min_edge) {
            stat_arb::sized(
                engine::order(
                    seen,
                    tick.venue,
                    Side::Buy,
                    tick.ask,
                    tick.ask_size.smaller(config.max_order_size),
                    OrderType::ImmediateOrCancel,
                    EngineId::LiquiditySniping,
                ),
            )
        } else {
            Seq::empty()
        }) + (if tick.bid.gt(high) && c.minus(tick.bid, high).ge(config.min_edge) {
            stat_arb::sized(
                engine::order(
                    seen,
                    tick.venue,
                    Side::Sell,
                    tick.bid,
                    tick.bid_size.smaller(config.max_order_size),
                    OrderType::ImmediateOrCancel,
                    EngineId::LiquiditySniping,
                ),
            )
        } else {
            Seq::empty()
        })
    }
}

/// What the quotes call for, in order.
pub open spec fn snipes(
    c: &Arithmetic,
    config: SnipingConfig,
    seen: Snapshot,
    quotes: Seq<NormalizedTick>,
) -> Seq<OrderIntent>
    decreases quotes.len(),
{
    if quotes.len() == 0 {
        Seq::empty()
    } else {
        snipes(c, config, seen, quotes.drop_last()) + snipes_on(c, config, seen, quotes.last())
    }
}

/// Takes resting quotes that lie far outside the band of a fair value at least as fresh as the
/// quote. A price outside an older band may only mean that the model is behind.
#[derive(Debug)]
pub struct LiquiditySnipingEngine {
    pub config: SnipingConfig,
}

impl LiquiditySnipingEngine {
    pub fn new(config: SnipingConfig) -> (r: LiquiditySnipingEngine)
        ensures
            r == (LiquiditySnipingEngine { config }),
    {
        LiquiditySnipingEngine { config }
    }
}

impl StrategyEngine for LiquiditySnipingEngine {
    open spec fn identity(&self) -> EngineId {
        EngineId::LiquiditySniping
    }

    open spec fn proposals(&self, c: &Arithmetic, seen: Snapshot) -> Seq<OrderIntent> {
        snipes(c, self.config, seen, seen.book.quotes(seen.contract@))
    }

    fn id(&self) -> (r: EngineId) {
        EngineId::LiquiditySniping
    }

    fn evaluate(&self, c: &Arithmetic, input: &StrategyInput) -> (r: Vec<OrderIntent>) {
        let zero = Double::from_bits(ZERO);
        let quotes = input.book.quotes(input.contract);
        let mut intents: Vec<OrderIntent> = Vec::new();
        let mut i: usize = 0;
        while i < quotes.len()
            invariant
                i <= quotes.len(),
                zero == Double::from_bits(ZERO),
                intents@ == snipes(c, self.config, input@, quotes@.take(i as int)),
            decreases quotes.len() - i,
        {
            let tick = &quotes[i];
            let ghost before = intents@;
            let low = input.fair_value.band_low;
            let high = input.fair_value.band_high;
            if input.fair_value.as_of.since(tick.receive_ts) >= 0 {
                if tick.ask.lt(low) && c.minus(low, tick.ask).ge(self.config.min_edge) {
                    let size = tick.ask_size.smaller(self.config.max_order_size);
                    if size.gt(zero) {
                        intents.push(
                            engine::make_order(
                                input,
                                tick.venue,
                                Side::Buy,
                                tick.ask,
                                size,
                                OrderType::ImmediateOrCancel,
                                EngineId::LiquiditySniping,
                            ),
                        );
                    }
                }
                if tick.bid.gt(high) && c.minus(tick.bid, high).ge(self.config.min_edge) {
                    let size = tick.bid_size.smaller(self.config.max_order_size);
                    if size.gt(zero) {
                        intents.push(
                            engine::make_order(
                                input,
                                tick.venue,
                                Side::Sell,
                                tick.bid,
                                size,
                                OrderType::ImmediateOrCancel,
                                EngineId::LiquiditySniping,
                            ),
                        );
                    }
                }
            }
            assert(intents@ == before + snipes_on(c, self.config, input@, *tick));
            assert(quotes@.take(i + 1).drop_last() == quotes@.take(i as int));
            i += 1;
        }
        assert(quotes@.take(i as int) == quotes@);
        intents
    }
}

/// A quote that is newer than the fair value is never sniped.
pub proof fn law_no_snipe_on_an_older_view(
    c: &Arithmetic,
    config: SnipingConfig,
    seen: Snapshot,
    tick: NormalizedTick,
)
    requires
        seen.fair_value.as_of.0 < tick.receive_ts.0,
    ensures
        snipes_on(c, config, seen, tick).len() == 0,
{
}

/// A snipe never asks for more than rests at the price, nor for more than the largest size.
pub proof fn law_snipe_takes_no_more_than_rests(
    c: &Arithmetic,
    config: SnipingConfig,
    seen: Snapshot,
    tick: NormalizedTick,
    i: int,
)
    requires
        tick.is_valid(),
        0 <= i < snipes_on(c, config, seen, tick).len(),
        !config.max_order_size.is_nan(),
    ensures
        ({
            let order = snipes_on(c, config, seen, tick)[i];
            &&& order.size.le(config.max_order_size)
            &&& order.size.le(
                match order.side {
                    Side::Buy => tick.ask_size,
                    Side::Sell => tick.bid_size,
                },
            )
        }),
{
}

/// A snipe takes what rests at a price that is wrong by more than the margin: a buy takes an ask
/// that lies below the band, a sale a bid above it, each by at least the least edge, at the price
/// and for the size that a quote no newer than the view shows. And nothing that is so mispriced is
/// left: every such quote is taken.
pub proof fn law_snipes_are_the_mispriced_quotes(
    c: &Arithmetic,
    engine: &LiquiditySnipingEngine,
    seen: Snapshot,
    i: int,
    k: int,
)
    ensures
        ({
            let quotes = seen.book.quotes(seen.contract@);
            let orders = engine.proposals(c, seen);
            let low = seen.fair_value.band_low;
            let high = seen.fair_value.band_high;
            let most = engine.config.max_order_size;
            let least = engine.config.min_edge;
            &&& 0 <= i < orders.len() ==> {
                let o = orders[i];
                &&& o.contract == seen.contract
                &&& o.created_at == seen.now
                &&& o.engine == EngineId::LiquiditySniping
                &&& o.order_type == OrderType::ImmediateOrCancel
                &&& o.size.gt(Double::from_bits(ZERO))
                &&& exists|j: int|
                    0 <= j < quotes.len() && {
                        let t = #[trigger] quotes[j];
                        &&& o.venue == t.venue
                        &&& t.receive_ts.0 <= seen.fair_value.as_of.0
                        &&& match o.side {
                            Side::Buy => {
                                &&& o.price == t.ask
                                &&& t.ask.lt(low)
                                &&& least.le(c.minus(low, t.ask))
                                &&& o.size == t.ask_size.smaller(most)
                            },
                            Side::Sell => {
                                &&& o.price == t.bid
                                &&& high.lt(t.bid)
                                &&& least.le(c.minus(t.bid, high))
                                &&& o.size == t.bid_size.smaller(most)
                            },
                        }
                    }
            }
            &&& 0 <= k < quotes.len() && quotes[k].receive_ts.0 <= seen.fair_value.as_of.0 ==> {
                let t = quotes[k];
                &&& t.ask.lt(low) && least.le(c.minus(low, t.ask)) && t.ask_size.smaller(most).gt(
                    Double::from_bits(ZERO),
                ) ==> exists|j: int|
                    0 <= j < orders.len() && (#[trigger] orders[j]).side == Side::Buy
                        && orders[j].venue == t.venue && orders[j].price == t.ask
                        && orders[j].size == t.ask_size.smaller(most)
                &&& high.lt(t.bid) && least.le(c.minus(t.bid, high)) && t.bid_size.smaller(most).gt(
                    Double::from_bits(ZERO),
                ) ==> exists|j: int|
                    0 <= j < orders.len() && (#[trigger] orders[j]).side == Side::Sell
                        && orders[j].venue == t.venue && orders[j].price == t.bid
                        && orders[j].size == t.bid_size.smaller(most)
            }
        }),
{
    let quotes = seen.book.quotes(seen.contract@);
    let orders = engine.proposals(c, seen);
    let most = engine.config.max_order_size;
    let zero = Double::from_bits(ZERO);
    if 0 <= i < orders.len() {
        let (j, m) = lemma_source(c, engine.config, seen, quotes, i);
        let t = quotes[j];
        assert(orders[i] == snipes_on(c, engine.config, seen, t)[m]);
    }
    if 0 <= k < quotes.len() && quotes[k].receive_ts.0 <= seen.fair_value.as_of.0 {
        let t = quotes[k];
        let on = snipes_on(c, engine.config, seen, t);
        let low = seen.fair_value.band_low;
        let high = seen.fair_value.band_high;
        let least = engine.config.min_edge;
        let buys = t.ask.lt(low) && least.le(c.minus(low, t.ask)) && t.ask_size.smaller(most).gt(
            zero,
        );
        let sells = high.lt(t.bid) && least.le(c.minus(t.bid, high)) && t.bid_size.smaller(most).gt(
            zero,
        );
        if buys {
            let j = lemma_taken(c, engine.config, seen, quotes, k, 0);
            assert(orders[j] == on[0]);
        }
        if sells {
            let m = on.len() - 1;
            let j = lemma_taken(c, engine.config, seen, quotes, k, m);
            assert(orders[j] == on[m]);
        }
    }
}

proof fn lemma_source(
    c: &Arithmetic,
    config: SnipingConfig,
    seen: Snapshot,
    quotes: Seq<NormalizedTick>,
    i: int,
) -> (r: (int, int))
    requires
        0 <= i < snipes(c, config, seen, quotes).len(),
    ensures
        0 <= r.0 < quotes.len(),
        0 <= r.1 < snipes_on(c, config, seen, quotes[r.0]).len(),
        snipes(c, config, seen, quotes)[i] == snipes_on(c, config, seen, quotes[r.0])[r.1],
    decreases quotes.len(),
{
    let rest = quotes.drop_last();
    let n = quotes.len() - 1;
    let before = snipes(c, config, seen, rest);
    assert(quotes.last() == quotes[n]);
    if i < before.len() {
        let r = lemma_source(c, config, seen, rest, i);
        assert(rest[r.0] == quotes[r.0]);
        r
    } else {
        (n, i - before.len())
    }
}

proof fn lemma_taken(
    c: &Arithmetic,
    config: SnipingConfig,
    seen: Snapshot,
    quotes: Seq<NormalizedTick>,
    k: int,
    m: int,
) -> (j: int)
    requires
        0 <= k < quotes.len(),
        0 <= m < snipes_on(c, config, seen, quotes[k]).len(),
    ensures
        0 <= j < snipes(c, config, seen, quotes).len(),
        snipes(c, config, seen, quotes)[j] == snipes_on(c, config, seen, quotes[k])[m],
    decreases quotes.len(),
{
    let rest = quotes.drop_last();
    let n = quotes.len() - 1;
    let before = snipes(c, config, seen, rest);
    assert(quotes.last() == quotes[n]);
    if k < n {
        assert(rest[k] == quotes[k]);
        lemma_taken(c, config, seen, rest, k, m)
    } else {
        before.len() + m
    }
}

} // verus!
