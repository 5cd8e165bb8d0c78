//! The demonstration scenario: a bullish forecast, a stale cheap quote, a quote that has
//! already moved.
use vstd::prelude::*;
use crate::alpha::payload::{Payload, WeatherPayload};
use crate::alpha::source::{AlphaSource, Sources};
use crate::alpha::sources::weather::WeatherEnsembleSource;
use crate::book;
use crate::book::{ConsolidatedBook, CrossVenueArb};
use crate::double::{Arithmetic, Double, ZERO};
use crate::risk::gate::{GateState, RiskLimits};
use crate::sim::backtest::{Backtest, BacktestState};
use crate::sim::replay::ReplayEvent;
use crate::strategy::engine::{Engine, Lineup, StrategyEngine};
use crate::strategy::engines::market_making::{MarketMakingConfig, MarketMakingEngine};
use crate::strategy::engines::sniping::{LiquiditySnipingEngine, SnipingConfig};
use crate::strategy::engines::stat_arb::{StatArbConfig, StatArbEngine};
use crate::types::alpha::{AlphaEventKind, RawEvent};
use crate::types::contract;
use crate::types::contract::{
    CanonicalContractId, CanonicalContractSpec, ClusterKey, Direction, EventClass, IdFields,
};
use crate::types::market::NormalizedTick;
use crate::types::time::Timestamp;
use crate::types::venue::{FeeModel, VenueId};

verus! {

/// Whether `spec` is the contract of the scenario: over 86.9 degrees in Chicago on a day.
pub open spec fn is_demo_spec(spec: CanonicalContractSpec) -> bool {
    &&& spec.event_class.0@ == "wx.temp"@
    &&& spec.location@ == "chicago"@
    &&& spec.threshold == 869
    &&& spec.direction == Direction::GreaterThan
    &&& spec.resolution_window@ == "2026-08-12"@
    &&& spec.resolution_source@ == "nws_official"@
}

/// The id of the scenario's contract.
pub open spec fn demo_id() -> Seq<char> {
    contract::joined(
        IdFields {
            event_class: "wx.temp"@,
            location: contract::escaped(
                contract::underscored(contract::lowercase("chicago"@)),
            ),
            direction: Direction::GreaterThan.token_text(869),
            window: contract::escaped(contract::lowercase("2026-08-12"@)),
            source: contract::escaped(contract::lowercase("nws_official"@)),
        },
    )
}

/// The contract of the scenario.
pub fn demo_contract_spec() -> (r: CanonicalContractSpec)
    ensures
        is_demo_spec(r),
        contract::joined(r.id_fields()) == demo_id(),
{
    CanonicalContractSpec {
        event_class: EventClass("wx.temp".to_owned()),
        location: "chicago".to_owned(),
        threshold: 869,
        direction: Direction::GreaterThan,
        resolution_window: "2026-08-12".to_owned(),
        resolution_source: "nws_official".to_owned(),
    }
}

/// The id of the scenario's contract.
pub fn demo_contract_id() -> (r: CanonicalContractId)
    ensures
        r@ == demo_id(),
{
    demo_contract_spec().to_id()
}

/// A bid and an ask.
#[derive(Debug, Clone, Copy, PartialEq, Eq, Structural)]
pub struct Quote {
    pub bid: Double,
    pub ask: Double,
}

/// A quote of one size on both sides.
pub open spec fn even_tick(
    contract: CanonicalContractId,
    venue: VenueId,
    quote: Quote,
    size: Double,
    receive_ts: Timestamp,
) -> NormalizedTick {
    NormalizedTick {
        venue,
        contract,
        bid: quote.bid,
        bid_size: size,
        ask: quote.ask,
        ask_size: size,
        venue_ts: None,
        receive_ts,
    }
}

fn make_even_tick(
    contract: &CanonicalContractId,
    venue: VenueId,
    quote: Quote,
    size: Double,
    receive_ts: Timestamp,
) -> (r: NormalizedTick)
    ensures
        r == even_tick(*contract, venue, quote, size, receive_ts),
{
    NormalizedTick {
        venue,
        contract: contract.clone(),
        bid: quote.bid,
        bid_size: size,
        ask: quote.ask,
        ask_size: size,
        venue_ts: None,
        receive_ts,
    }
}

/// The quotes that a book takes of two: those that are valid.
pub open spec fn taken(a: NormalizedTick, b: NormalizedTick) -> Seq<NormalizedTick> {
    (if a.is_valid() {
        seq![a]
    } else {
        Seq::empty()
    }) + (if b.is_valid() {
        seq![b]
    } else {
        Seq::empty()
    })
}

/// Looks for a riskless trade between two venues' quotes, each of one size on both sides.
pub fn sample_arb(
    c: &Arithmetic,
    polymarket: Quote,
    polymarket_size: Double,
    kalshi: Quote,
    kalshi_size: Double,
) -> (r: Option<CrossVenueArb>)
    ensures
        exists|contract: CanonicalContractId|
            {
                let a = even_tick(
                    contract,
                    VenueId::Polymarket,
                    polymarket,
                    polymarket_size,
                    Timestamp(0),
                );
                let b = even_tick(contract, VenueId::Kalshi, kalshi, kalshi_size, Timestamp(0));
                &&& #[trigger] contract@ == demo_id()
                &&& r == book::best_arb(c, contract, taken(a, b), taken(a, b))
            },
{
    let contract = demo_contract_id();
    let mut market = ConsolidatedBook::new();
    let a = make_even_tick(
        &contract,
        VenueId::Polymarket,
        polymarket,
        polymarket_size,
        Timestamp::from_nanos(0),
    );
    let b = make_even_tick(
        &contract,
        VenueId::Kalshi,
        kalshi,
        kalshi_size,
        Timestamp::from_nanos(0),
    );
    let ghost (first, second) = (a, b);
    market.update(c, a);
    market.update(c, b);
    assert(market@.quotes(contract@) =~= taken(first, second));
    market.detect_arb(c, &contract)
}

/// Whether `events` are the scenario: the forecast at once, the stale quote a millisecond
/// later, the moved quote after another.
pub open spec fn is_scenario(
    events: Seq<ReplayEvent>,
    forecasts: Seq<i64>,
    stale: Quote,
    moved: Quote,
) -> bool {
    let size = Double::from_bits(SIZE);
    &&& events.len() == 3
    &&& events[0] matches ReplayEvent::Alpha(raw) && is_forecast(raw, forecasts)
    &&& events[1] matches ReplayEvent::Tick(tick) && tick.contract@ == demo_id() && tick
        == even_tick(tick.contract, VenueId::Polymarket, stale, size, Timestamp(1_000_000))
    &&& events[2] matches ReplayEvent::Tick(tick) && tick.contract@ == demo_id() && tick
        == even_tick(tick.contract, VenueId::Kalshi, moved, size, Timestamp(2_000_000))
}

/// Whether `raw` is the scenario's forecast.
pub open spec fn is_forecast(raw: RawEvent, forecasts: Seq<i64>) -> bool {
    &&& raw.source@ == SOURCE@
    &&& raw.kind == AlphaEventKind::Weather
    &&& raw.publish_ts is None
    &&& raw.receive_ts == Timestamp(0)
    &&& raw.payload.weather matches Some(w) && w.contract@ == demo_id() && w.threshold_tenths == 869
        && w.direction is None && w.upper_tenths is None && w.ensemble_forecast_tenths@ == forecasts
    &&& raw.payload == (Payload {
        weather: raw.payload.weather,
        econ: None,
        news: None,
        oracle: None,
        order_flow: None,
        reference_distance: None,
        correlated_asset: None,
        tennis: None,
    })
}

/// The source that reads the scenario's forecast.
pub const SOURCE: &'static str = "hrrr-ensemble";

/// 50.0
pub const SIZE: u64 = 0x4049_0000_0000_0000;

/// 0.50
pub const STALE_BID: u64 = 0x3FE0_0000_0000_0000;

/// 0.55
pub const STALE_ASK: u64 = 0x3FE1_9999_9999_999A;

/// 0.90
pub const MOVED_BID: u64 = 0x3FEC_CCCC_CCCC_CCCD;

/// 0.94
pub const MOVED_ASK: u64 = 0x3FEE_147A_E147_AE14;

/// The forecasts of the ensemble's members, in tenths of a degree.
pub open spec fn base_forecasts() -> Seq<i64> {
    seq![920i64, 930, 915, 925, 918]
}

/// The quote that has not moved yet.
#[verifier::allow_in_spec]
pub fn stale_quote() -> Quote
    returns
        (Quote { bid: Double::from_bits(STALE_BID), ask: Double::from_bits(STALE_ASK) }),
{
    Quote { bid: Double::from_bits(STALE_BID), ask: Double::from_bits(STALE_ASK) }
}

/// The quote that has moved.
#[verifier::allow_in_spec]
pub fn moved_quote() -> Quote
    returns
        (Quote { bid: Double::from_bits(MOVED_BID), ask: Double::from_bits(MOVED_ASK) }),
{
    Quote { bid: Double::from_bits(MOVED_BID), ask: Double::from_bits(MOVED_ASK) }
}

/// The events of the scenario with the given forecasts and quotes.
pub fn scenario_events(forecasts: Vec<i64>, stale: Quote, moved: Quote) -> (r: Vec<ReplayEvent>)
    ensures
        is_scenario(r@, forecasts@, stale, moved),
{
    let contract = demo_contract_id();
    let size = Double::from_bits(SIZE);
    let mut payload = Payload::unknown();
    payload.weather =
    Some(
        WeatherPayload {
            contract: contract.0.clone(),
            threshold_tenths: 869,
            direction: None,
            upper_tenths: None,
            ensemble_forecast_tenths: forecasts,
        },
    );
    let forecast = RawEvent {
        source: SOURCE.to_owned(),
        kind: AlphaEventKind::Weather,
        publish_ts: None,
        receive_ts: Timestamp::from_nanos(0),
        payload,
    };
    let mut events: Vec<ReplayEvent> = Vec::new();
    events.push(ReplayEvent::Alpha(forecast));
    events.push(
        ReplayEvent::Tick(
            make_even_tick(
                &contract,
                VenueId::Polymarket,
                stale,
                size,
                Timestamp::from_nanos(1_000_000),
            ),
        ),
    );
    events.push(
        ReplayEvent::Tick(
            make_even_tick(
                &contract,
                VenueId::Kalshi,
                moved,
                size,
                Timestamp::from_nanos(2_000_000),
            ),
        ),
    );
    events
}

/// The events of the scenario as it is told.
pub fn demo_events() -> (r: Vec<ReplayEvent>)
    ensures
        is_scenario(r@, base_forecasts(), stale_quote(), moved_quote()),
{
    let forecasts: Vec<i64> = vec![920, 930, 915, 925, 918];
    assert(forecasts@ =~= base_forecasts());
    scenario_events(forecasts, stale_quote(), moved_quote())
}

/// Whether these are the scenario's sources: one weather ensemble, of its name, with neither a
/// floor nor a group.
pub open spec fn is_demo_sources(sources: Sources) -> bool {
    &&& sources.others == Seq::<Box<dyn AlphaSource>>::empty()
    &&& sources.weather.len() == 1
    &&& sources.weather[0].named() == SOURCE@
    &&& sources.weather[0].kinds() == seq![AlphaEventKind::Weather]
    &&& sources.weather[0].correlation_group is None
    &&& sources.weather[0].min_std_dev == Double::from_bits(ZERO)
}

/// The scenario's engines: sniping, statistical arbitrage and market making, each as usual.
pub open spec fn demo_engines() -> Lineup {
    Lineup {
        known: seq![
            Engine::Sniping(LiquiditySnipingEngine { config: SnipingConfig::usual() }),
            Engine::StatArb(StatArbEngine { config: StatArbConfig::usual() }),
            Engine::MarketMaking(MarketMakingEngine { config: MarketMakingConfig::usual() }),
        ],
        others: Seq::<Box<dyn StrategyEngine>>::empty(),
    }
}

/// Whether `state` is that of the scenario's pipeline, with no contract told to it yet: usual
/// limits, Polymarket's fees, the scenario's sources and its engines.
pub open spec fn is_demo_pipeline(state: BacktestState) -> bool {
    &&& is_demo_sources(state.sources)
    &&& state == BacktestState::start(
        RiskLimits::usual(),
        FeeModel::polymarket_default(),
        state.sources,
        demo_engines(),
    )
}

/// The scenario's pipeline, with no contract told to it yet.
pub fn demo_pipeline() -> (r: Backtest)
    ensures
        is_demo_pipeline(r@),
{
    let mut sources: Vec<WeatherEnsembleSource> = Vec::new();
    sources.push(WeatherEnsembleSource::new(SOURCE));
    let mut engines: Vec<Engine> = Vec::new();
    engines.push(Engine::Sniping(LiquiditySnipingEngine::new(SnipingConfig::default())));
    engines.push(Engine::StatArb(StatArbEngine::new(StatArbConfig::default())));
    engines.push(Engine::MarketMaking(MarketMakingEngine::new(MarketMakingConfig::default())));
    assert(engines@ =~= demo_engines().known);
    Backtest::of_known(
        RiskLimits::default(),
        FeeModel::polymarket_default(),
        sources,
        engines,
    )
}

/// Whether `state` is that of the scenario's backtest before its first event: the pipeline, and
/// the contract in its cluster.
pub open spec fn is_demo_start(state: BacktestState) -> bool {
    let start = BacktestState::start(
        RiskLimits::usual(),
        FeeModel::polymarket_default(),
        state.sources,
        demo_engines(),
    );
    &&& is_demo_sources(state.sources)
    &&& state == (BacktestState {
        gate: GateState { clusters: state.gate.clusters, ..start.gate },
        ..start
    })
    &&& exists|spec: CanonicalContractSpec, key: ClusterKey| #[trigger]
        is_demo_spec(spec) && #[trigger] key.0@ == spec.cluster_text() && state.gate.clusters
            == Map::<Seq<char>, ClusterKey>::empty().insert(demo_id(), key)
}

/// The scenario's backtest, before its first event.
pub fn demo_backtest() -> (r: Backtest)
    ensures
        is_demo_start(r@),
{
    let mut backtest = demo_pipeline();
    let spec = demo_contract_spec();
    let key = spec.cluster_key();
    let ghost held = key;
    backtest.register_contract(spec.to_id(), key);
    assert(is_demo_spec(spec) && held.0@ == spec.cluster_text());
    assert(backtest@.gate.clusters =~= Map::<Seq<char>, ClusterKey>::empty().insert(
        demo_id(),
        held,
    ));
    backtest
}

} // verus!
