//! The risk gate that every order clears before it reaches a venue. It rejects; it never resizes.
use vstd::prelude::*;
use crate::book::{BookState, ConsolidatedBook};
use crate::double::{Arithmetic, Double, Style, INFINITY, ZERO};
use crate::keyed::{TextMap, VenueMap};
use crate::risk::kill_switch::{KillSwitch, SwitchState, TripScope};
use crate::risk::ledger;
use crate::risk::ledger::{Ledger, Reservation, Slot};
use crate::risk::live;
use crate::risk::live::LiveOrder;
use crate::types::contract::{CanonicalContractId, ClusterKey, Direction};
use crate::types::market::NormalizedTick;
use crate::types::orders::{AckStatus, OrderIntent, OrderType, Side};
use crate::types::position::Position;
use crate::types::time::Timestamp;
use crate::types::validate;
use crate::types::validate::{Fault, ValidationError};
use crate::types::venue::VenueId;

verus! {

/// Why an order was refused.
#[derive(Debug, PartialEq)]
pub enum RejectReason {
    /// The real positions are not known yet: an empty ledger after a restart is not a flat one.
    NotReconciled,
    KillSwitch { reason: String },
    NoMarketData,
    FeedStale { age_ns: i64, max_ns: i64 },
    /// The quote lies in the future: skew, not freshness.
    ClockSkew { skew_ns: i64 },
    /// The price lies further beyond the venue's own touch than is allowed.
    PriceThroughBook { touch: Double, price: Double, max_through: Double },
    Invalid(ValidationError),
    ContractLimitExceeded { limit: Double, projected: Double },
    ClusterLimitExceeded { limit: Double, projected: Double },
    VenueLimitExceeded { limit: Double, projected: Double },
    GrossLimitExceeded { limit: Double, projected: Double },
    NotionalPerOrderExceeded { limit: Double, projected: Double },
    NotionalVenueExceeded { limit: Double, projected: Double },
    NotionalTotalExceeded { limit: Double, projected: Double },
}

/// A reason for refusal, with its texts as sequences.
pub enum Refusal {
    NotReconciled,
    KillSwitch { reason: Seq<char> },
    NoMarketData,
    FeedStale { age_ns: int, max_ns: int },
    ClockSkew { skew_ns: int },
    PriceThroughBook { touch: Double, price: Double, max_through: Double },
    Invalid(Fault),
    ContractLimitExceeded { limit: Double, projected: Double },
    ClusterLimitExceeded { limit: Double, projected: Double },
    VenueLimitExceeded { limit: Double, projected: Double },
    GrossLimitExceeded { limit: Double, projected: Double },
    NotionalPerOrderExceeded { limit: Double, projected: Double },
    NotionalVenueExceeded { limit: Double, projected: Double },
    NotionalTotalExceeded { limit: Double, projected: Double },
}

impl View for RejectReason {
    type V = Refusal;

    open spec fn view(&self) -> Refusal {
        match self {
            RejectReason::NotReconciled => Refusal::NotReconciled,
            RejectReason::KillSwitch { reason } => Refusal::KillSwitch { reason: reason@ },
            RejectReason::NoMarketData => Refusal::NoMarketData,
            RejectReason::FeedStale { age_ns, max_ns } => Refusal::FeedStale {
                age_ns: *age_ns as int,
                max_ns: *max_ns as int,
            },
            RejectReason::ClockSkew { skew_ns } => Refusal::ClockSkew { skew_ns: *skew_ns as int },
            RejectReason::PriceThroughBook { touch, price, max_through } =>
                Refusal::PriceThroughBook {
                touch: *touch,
                price: *price,
                max_through: *max_through,
            },
            RejectReason::Invalid(e) => Refusal::Invalid(e.fault()),
            RejectReason::ContractLimitExceeded { limit, projected } =>
                Refusal::ContractLimitExceeded { limit: *limit, projected: *projected },
            RejectReason::ClusterLimitExceeded { limit, projected } =>
                Refusal::ClusterLimitExceeded { limit: *limit, projected: *projected },
            RejectReason::VenueLimitExceeded { limit, projected } => Refusal::VenueLimitExceeded {
                limit: *limit,
                projected: *projected,
            },
            RejectReason::GrossLimitExceeded { limit, projected } => Refusal::GrossLimitExceeded {
                limit: *limit,
                projected: *projected,
            },
            RejectReason::NotionalPerOrderExceeded { limit, projected } =>
                Refusal::NotionalPerOrderExceeded { limit: *limit, projected: *projected },
            RejectReason::NotionalVenueExceeded { limit, projected } =>
                Refusal::NotionalVenueExceeded { limit: *limit, projected: *projected },
            RejectReason::NotionalTotalExceeded { limit, projected } =>
                Refusal::NotionalTotalExceeded { limit: *limit, projected: *projected },
        }
    }
}

/// What a check said: nothing for an order that may proceed, or the refusal.
pub open spec fn refusal_in(r: Result<(), RejectReason>) -> Option<Refusal> {
    match r {
        Ok(_) => None,
        Err(e) => Some(e@),
    }
}

/// 500
pub const DEFAULT_CONTRACT_QTY: u64 = 0x407F_4000_0000_0000;

/// 800
pub const DEFAULT_CLUSTER_QTY: u64 = 0x4089_0000_0000_0000;

/// 2000
pub const DEFAULT_VENUE_QTY: u64 = 0x409F_4000_0000_0000;

/// 3000
pub const DEFAULT_TOTAL_QTY: u64 = 0x40A7_7000_0000_0000;

/// 250
pub const DEFAULT_ORDER_NOTIONAL: u64 = 0x406F_4000_0000_0000;

/// 1000
pub const DEFAULT_VENUE_NOTIONAL: u64 = 0x408F_4000_0000_0000;

/// 1500
pub const DEFAULT_TOTAL_NOTIONAL: u64 = 0x4097_7000_0000_0000;

/// 0.05
pub const DEFAULT_THROUGH: u64 = 0x3FA9_9999_9999_999A;

/// 200
pub const DEFAULT_SESSION_LOSS: u64 = 0x4069_0000_0000_0000;

/// 150
pub const DEFAULT_DRAWDOWN: u64 = 0x4062_C000_0000_0000;

/// The limits of the risk gate.
#[derive(Debug, Clone, Copy, PartialEq, Eq, Structural)]
pub struct RiskLimits {
    pub max_abs_qty_per_contract: Double,
    /// Shared by the correlated contracts of a cluster.
    pub max_abs_qty_per_cluster: Double,
    pub max_gross_qty_per_venue: Double,
    pub max_gross_qty_total: Double,
    pub max_feed_staleness_ns: i64,
    /// Caps on money at risk, in units of price.
    pub max_notional_per_order: Double,
    pub max_notional_per_venue: Double,
    pub max_notional_total: Double,
    /// How far beyond the venue's touch a price may lie.
    pub max_price_through_book: Double,
    /// The loss since the first mark at which everything halts.
    pub max_session_loss: Double,
    /// The fall from the highest mark at which everything halts.
    pub max_drawdown_from_peak: Double,
}

impl RiskLimits {
    /// The usual limits.
    pub open spec fn usual() -> RiskLimits {
        RiskLimits {
            max_abs_qty_per_contract: Double::from_bits(DEFAULT_CONTRACT_QTY),
            max_abs_qty_per_cluster: Double::from_bits(DEFAULT_CLUSTER_QTY),
            max_gross_qty_per_venue: Double::from_bits(DEFAULT_VENUE_QTY),
            max_gross_qty_total: Double::from_bits(DEFAULT_TOTAL_QTY),
            max_feed_staleness_ns: 5_000_000_000,
            max_notional_per_order: Double::from_bits(DEFAULT_ORDER_NOTIONAL),
            max_notional_per_venue: Double::from_bits(DEFAULT_VENUE_NOTIONAL),
            max_notional_total: Double::from_bits(DEFAULT_TOTAL_NOTIONAL),
            max_price_through_book: Double::from_bits(DEFAULT_THROUGH),
            max_session_loss: Double::from_bits(DEFAULT_SESSION_LOSS),
            max_drawdown_from_peak: Double::from_bits(DEFAULT_DRAWDOWN),
        }
    }
}

impl Default for RiskLimits {
    fn default() -> (r: RiskLimits)
        ensures
            r == RiskLimits::usual(),
    {
        RiskLimits {
            max_abs_qty_per_contract: Double::from_bits(DEFAULT_CONTRACT_QTY),
            max_abs_qty_per_cluster: Double::from_bits(DEFAULT_CLUSTER_QTY),
            max_gross_qty_per_venue: Double::from_bits(DEFAULT_VENUE_QTY),
            max_gross_qty_total: Double::from_bits(DEFAULT_TOTAL_QTY),
            max_feed_staleness_ns: 5_000_000_000,
            max_notional_per_order: Double::from_bits(DEFAULT_ORDER_NOTIONAL),
            max_notional_per_venue: Double::from_bits(DEFAULT_VENUE_NOTIONAL),
            max_notional_total: Double::from_bits(DEFAULT_TOTAL_NOTIONAL),
            max_price_through_book: Double::from_bits(DEFAULT_THROUGH),
            max_session_loss: Double::from_bits(DEFAULT_SESSION_LOSS),
            max_drawdown_from_peak: Double::from_bits(DEFAULT_DRAWDOWN),
        }
    }
}

/// What the risk gate knows.
pub struct GateState {
    pub limits: RiskLimits,
    /// Positions and live orders, in order of venue and contract.
    pub slots: Seq<Slot>,
    /// The orders that are reserved, each with what is left of it, oldest first.
    pub live: Seq<LiveOrder>,
    /// The cluster of each registered contract.
    pub clusters: Map<Seq<char>, ClusterKey>,
    pub switch: SwitchState,
    pub reconciled: bool,
    pub start_equity: Option<Double>,
    pub peak_equity: Double,
}

impl GateState {
    /// The cluster of a contract: the registered one, or one of its own.
    pub open spec fn cluster(self, contract: Seq<char>) -> Seq<char> {
        if self.clusters.contains_key(contract) {
            self.clusters[contract].0@
        } else {
            contract
        }
    }
}

/// The first quote of a venue.
pub open spec fn quote_of(quotes: Seq<NormalizedTick>, venue: VenueId) -> Option<NormalizedTick>
    decreases quotes.len(),
{
    if quotes.len() == 0 {
        None
    } else if quotes[0].venue == venue {
        Some(quotes[0])
    } else {
        quote_of(quotes.skip(1), venue)
    }
}

/// The touch that an order would take: the ask for a buy, the bid for a sell.
pub open spec fn touch_of(tick: NormalizedTick, side: Side) -> Double {
    match side {
        Side::Buy => tick.ask,
        Side::Sell => tick.bid,
    }
}

/// Whether a price is worse than the touch by more than `max_through`.
pub open spec fn through_book(
    c: &Arithmetic,
    side: Side,
    price: Double,
    touch: Double,
    max_through: Double,
) -> bool {
    let aggressive = match side {
        Side::Buy => price.gt(touch),
        Side::Sell => price.lt(touch),
    };
    aggressive && c.minus(price, touch).abs().gt(max_through)
}

/// The extra buying and selling that an order brings.
pub open spec fn extras(intent: OrderIntent) -> (Double, Double) {
    match intent.side {
        Side::Buy => (intent.size, Double::from_bits(ZERO)),
        Side::Sell => (Double::from_bits(ZERO), intent.size),
    }
}

/// The range of a slot, with the extras where it is the target.
pub open spec fn charged(
    c: &Arithmetic,
    slot: Slot,
    venue: VenueId,
    contract: Seq<char>,
    extra_buy: Double,
    extra_sell: Double,
) -> (Double, Double) {
    if slot.is_at(venue, contract) {
        slot.range(c, extra_buy, extra_sell)
    } else {
        slot.range(c, Double::from_bits(ZERO), Double::from_bits(ZERO))
    }
}

/// The sum of the worst cases of the slots, of one venue or of all.
pub open spec fn gross(
    c: &Arithmetic,
    slots: Seq<Slot>,
    filter: Option<VenueId>,
    venue: VenueId,
    contract: Seq<char>,
    extra_buy: Double,
    extra_sell: Double,
) -> Double
    decreases slots.len(),
{
    if slots.len() == 0 {
        Double::from_bits(ZERO)
    } else {
        let before = gross(
            c,
            slots.drop_last(),
            filter,
            venue,
            contract,
            extra_buy,
            extra_sell,
        );
        let slot = slots.last();
        if filter matches Some(f) && slot.venue != f {
            before
        } else {
            let (low, high) = charged(c, slot, venue, contract, extra_buy, extra_sell);
            c.plus(before, high.larger(low.neg()))
        }
    }
}

/// Whether a long position in a contract pays when the underlying falls.
pub open spec fn flips(contract: Seq<char>) -> bool {
    CanonicalContractId::terms(contract) matches Some((d, _)) && d == Direction::LessThan
}

/// Lowest and highest total of a cluster: the sum of its slots' ranges, each turned round
/// where the contract pays on a fall. It is the range of the sum, which is wider than a sum
/// of signed worst cases would be.
pub open spec fn cluster_sum(
    c: &Arithmetic,
    g: GateState,
    slots: Seq<Slot>,
    cluster: Seq<char>,
    venue: VenueId,
    contract: Seq<char>,
    extra_buy: Double,
    extra_sell: Double,
) -> (Double, Double)
    decreases slots.len(),
{
    if slots.len() == 0 {
        (Double::from_bits(ZERO), Double::from_bits(ZERO))
    } else {
        let (low_sum, high_sum) = cluster_sum(
            c,
            g,
            slots.drop_last(),
            cluster,
            venue,
            contract,
            extra_buy,
            extra_sell,
        );
        let slot = slots.last();
        if g.cluster(slot.contract@) != cluster {
            (low_sum, high_sum)
        } else {
            let (low, high) = charged(c, slot, venue, contract, extra_buy, extra_sell);
            if flips(slot.contract@) {
                (c.plus(low_sum, high.neg()), c.plus(high_sum, low.neg()))
            } else {
                (c.plus(low_sum, low), c.plus(high_sum, high))
            }
        }
    }
}

/// The larger magnitude of the two ends of a cluster's range.
pub open spec fn cluster_worst(
    c: &Arithmetic,
    g: GateState,
    slots: Seq<Slot>,
    cluster: Seq<char>,
    venue: VenueId,
    contract: Seq<char>,
    extra_buy: Double,
    extra_sell: Double,
) -> Double {
    let (low, high) = cluster_sum(
        c,
        g,
        slots,
        cluster,
        venue,
        contract,
        extra_buy,
        extra_sell,
    );
    high.larger(low.neg())
}

/// The money at risk in the filled positions, of one venue or of all.
pub open spec fn held_notional(c: &Arithmetic, slots: Seq<Slot>, filter: Option<VenueId>) -> Double
    decreases slots.len(),
{
    if slots.len() == 0 {
        Double::from_bits(ZERO)
    } else {
        let before = held_notional(c, slots.drop_last(), filter);
        let slot = slots.last();
        match slot.position {
            Some(p) => if filter matches Some(f) && slot.venue != f {
                before
            } else {
                c.plus(before, ledger::position_notional(c, p))
            },
            None => before,
        }
    }
}

/// The money at risk in positions and live orders, of one venue or of all.
pub open spec fn notional(
    c: &Arithmetic,
    slots: Seq<Slot>,
    all: Seq<Slot>,
    filter: Option<VenueId>,
) -> Double
    decreases slots.len(),
{
    if slots.len() == 0 {
        held_notional(c, all, filter)
    } else {
        let before = notional(c, slots.drop_last(), all, filter);
        let slot = slots.last();
        match slot.working {
            Some(r) => if filter matches Some(f) && slot.venue != f {
                before
            } else {
                c.plus(before, c.plus(r.buy_notional, r.sell_notional))
            },
            None => before,
        }
    }
}

/// Whether an axis refuses: over its limit, and worse than before. An order that shrinks an
/// exposure already over its limit must have a way through.
pub open spec fn over_limit(projected: Double, limit: Double, current: Double) -> bool {
    projected.gt(limit) && projected.gt(current)
}

/// The refusal by everything but the size of exposures: reconciliation, validity, halts,
/// market data, price, and the notional of the order alone.
pub open spec fn order_refusal(
    c: &Arithmetic,
    g: GateState,
    intent: OrderIntent,
    book: BookState,
    now: Timestamp,
) -> Option<Refusal> {
    if !g.reconciled {
        Some(Refusal::NotReconciled)
    } else if intent.fault(c) is Some {
        Some(Refusal::Invalid(intent.fault(c)->0))
    } else if g.switch.trip_for(intent.venue, intent.contract@) is Some {
        Some(
            Refusal::KillSwitch {
                reason: g.switch.trip_for(intent.venue, intent.contract@)->0.reason@,
            },
        )
    } else {
        match quote_of(book.quotes(intent.contract@), intent.venue) {
            None => Some(Refusal::NoMarketData),
            Some(tick) => {
                let age = now.age(tick.receive_ts);
                let touch = touch_of(tick, intent.side);
                if age < 0 {
                    Some(
                        Refusal::ClockSkew {
                            skew_ns: if age == i64::MIN {
                                i64::MAX as int
                            } else {
                                -age
                            },
                        },
                    )
                } else if age > g.limits.max_feed_staleness_ns {
                    Some(
                        Refusal::FeedStale {
                            age_ns: age,
                            max_ns: g.limits.max_feed_staleness_ns as int,
                        },
                    )
                } else if through_book(
                    c,
                    intent.side,
                    intent.price,
                    touch,
                    g.limits.max_price_through_book,
                ) {
                    Some(
                        Refusal::PriceThroughBook {
                            touch,
                            price: intent.price,
                            max_through: g.limits.max_price_through_book,
                        },
                    )
                } else if intent.notional(c).gt(g.limits.max_notional_per_order) {
                    Some(
                        Refusal::NotionalPerOrderExceeded {
                            limit: g.limits.max_notional_per_order,
                            projected: intent.notional(c),
                        },
                    )
                } else {
                    None
                }
            },
        }
    }
}

/// What an axis holds now and would hold with the order.
pub struct Axis {
    pub current: Double,
    pub projected: Double,
}

/// The quantity of the contract on its venue.
pub open spec fn contract_axis(c: &Arithmetic, slots: Seq<Slot>, intent: OrderIntent) -> Axis {
    let slot = ledger::slot_of(slots, intent.venue, intent.contract);
    let zero = Double::from_bits(ZERO);
    let (eb, es) = extras(intent);
    Axis { current: slot.worst_case(c, zero, zero), projected: slot.worst_case(c, eb, es) }
}

/// The quantity of the contract's cluster.
pub open spec fn cluster_axis(
    c: &Arithmetic,
    g: GateState,
    slots: Seq<Slot>,
    intent: OrderIntent,
) -> Axis {
    let all = ledger::seated(slots, intent.venue, intent.contract);
    let zero = Double::from_bits(ZERO);
    let (eb, es) = extras(intent);
    let name = intent.contract@;
    let cluster = g.cluster(name);
    Axis {
        current: cluster_worst(c, g, all, cluster, intent.venue, name, zero, zero),
        projected: cluster_worst(c, g, all, cluster, intent.venue, name, eb, es),
    }
}

/// The gross quantity of the venue, or of all venues.
pub open spec fn gross_axis(
    c: &Arithmetic,
    slots: Seq<Slot>,
    intent: OrderIntent,
    filter: Option<VenueId>,
) -> Axis {
    let all = ledger::seated(slots, intent.venue, intent.contract);
    let zero = Double::from_bits(ZERO);
    let (eb, es) = extras(intent);
    let name = intent.contract@;
    Axis {
        current: gross(c, all, filter, intent.venue, name, zero, zero),
        projected: gross(c, all, filter, intent.venue, name, eb, es),
    }
}

/// The money at risk on the venue, or on all venues.
pub open spec fn notional_axis(
    c: &Arithmetic,
    slots: Seq<Slot>,
    intent: OrderIntent,
    filter: Option<VenueId>,
) -> Axis {
    let all = ledger::seated(slots, intent.venue, intent.contract);
    let current = notional(c, all, all, filter);
    Axis { current, projected: c.plus(current, intent.notional(c)) }
}

/// The refusal by the size of exposures: contract, cluster, venue, total, and the money at risk
/// on the venue and in total.
pub open spec fn exposure_refusal(
    c: &Arithmetic,
    g: GateState,
    slots: Seq<Slot>,
    intent: OrderIntent,
) -> Option<Refusal> {
    let by_contract = contract_axis(c, slots, intent);
    let by_cluster = cluster_axis(c, g, slots, intent);
    let by_venue = gross_axis(c, slots, intent, Some(intent.venue));
    let in_total = gross_axis(c, slots, intent, None);
    let money_venue = notional_axis(c, slots, intent, Some(intent.venue));
    let money_total = notional_axis(c, slots, intent, None);
    let l = g.limits;
    if over_limit(by_contract.projected, l.max_abs_qty_per_contract, by_contract.current) {
        Some(
            Refusal::ContractLimitExceeded {
                limit: l.max_abs_qty_per_contract,
                projected: by_contract.projected,
            },
        )
    } else if over_limit(by_cluster.projected, l.max_abs_qty_per_cluster, by_cluster.current) {
        Some(
            Refusal::ClusterLimitExceeded {
                limit: l.max_abs_qty_per_cluster,
                projected: by_cluster.projected,
            },
        )
    } else if over_limit(by_venue.projected, l.max_gross_qty_per_venue, by_venue.current) {
        Some(
            Refusal::VenueLimitExceeded {
                limit: l.max_gross_qty_per_venue,
                projected: by_venue.projected,
            },
        )
    } else if over_limit(in_total.projected, l.max_gross_qty_total, in_total.current) {
        Some(
            Refusal::GrossLimitExceeded {
                limit: l.max_gross_qty_total,
                projected: in_total.projected,
            },
        )
    } else if over_limit(money_venue.projected, l.max_notional_per_venue, money_venue.current) {
        Some(
            Refusal::NotionalVenueExceeded {
                limit: l.max_notional_per_venue,
                projected: money_venue.projected,
            },
        )
    } else if over_limit(money_total.projected, l.max_notional_total, money_total.current) {
        Some(
            Refusal::NotionalTotalExceeded {
                limit: l.max_notional_total,
                projected: money_total.projected,
            },
        )
    } else {
        None
    }
}

/// What the risk gate says of an order against the given slots: nothing, or why it is refused.
pub open spec fn verdict(
    c: &Arithmetic,
    g: GateState,
    slots: Seq<Slot>,
    intent: OrderIntent,
    book: BookState,
    now: Timestamp,
) -> Option<Refusal> {
    let refusal = order_refusal(c, g, intent, book, now);
    if refusal is Some {
        refusal
    } else {
        exposure_refusal(c, g, slots, intent)
    }
}

/// The slots with an order reserved.
pub open spec fn reserved(c: &Arithmetic, slots: Seq<Slot>, intent: OrderIntent) -> Seq<Slot> {
    let slot = ledger::slot_of(slots, intent.venue, intent.contract);
    ledger::with_slot(
        slots,
        Slot { working: Some(slot.live().plus(c, intent)), ..slot },
    )
}

/// The risk gate with an order reserved at its full size.
pub open spec fn reserving(c: &Arithmetic, g: GateState, intent: OrderIntent) -> GateState {
    GateState {
        slots: reserved(c, g.slots, intent),
        live: g.live.push(LiveOrder { intent, left: intent.size }),
        ..g
    }
}

/// The scratch slots after a batch: every order that clears is reserved before the next is
/// looked at.
pub open spec fn after_batch(
    c: &Arithmetic,
    g: GateState,
    intents: Seq<OrderIntent>,
    book: BookState,
    now: Timestamp,
) -> Seq<Slot>
    decreases intents.len(),
{
    if intents.len() == 0 {
        g.slots
    } else {
        let before = after_batch(c, g, intents.drop_last(), book, now);
        if verdict(c, g, before, intents.last(), book, now) is None {
            reserved(c, before, intents.last())
        } else {
            before
        }
    }
}

/// The risk gate after each order of a list was checked and, where it cleared, reserved, one
/// after the other.
pub open spec fn one_by_one(
    c: &Arithmetic,
    g: GateState,
    intents: Seq<OrderIntent>,
    book: BookState,
    now: Timestamp,
) -> GateState
    decreases intents.len(),
{
    if intents.len() == 0 {
        g
    } else {
        let before = one_by_one(c, g, intents.drop_last(), book, now);
        if verdict(c, before, before.slots, intents.last(), book, now) is None {
            reserving(c, before, intents.last())
        } else {
            before
        }
    }
}

/// The single point that every engine's orders pass.
#[derive(Debug)]
pub struct RiskGate {
    limits: RiskLimits,
    ledger: Ledger,
    live: Vec<LiveOrder>,
    cluster_of: TextMap<ClusterKey>,
    kill_switch: KillSwitch,
    reconciled: bool,
    session_start_equity: Option<Double>,
    peak_equity: Double,
}

impl View for RiskGate {
    type V = GateState;

    closed spec fn view(&self) -> GateState {
        GateState {
            limits: self.limits,
            slots: self.ledger@,
            live: self.live@,
            clusters: self.cluster_of@,
            switch: self.kill_switch@,
            reconciled: self.reconciled,
            start_equity: self.session_start_equity,
            peak_equity: self.peak_equity,
        }
    }
}

fn find_quote(quotes: &Vec<NormalizedTick>, venue: VenueId) -> (r: Option<&NormalizedTick>)
    ensures
        match r {
            Some(t) => quote_of(quotes@, venue) == Some(*t),
            None => quote_of(quotes@, venue) is None,
        },
{
    let mut i: usize = 0;
    assert(quotes@.skip(0) == quotes@);
    while i < quotes.len()
        invariant
            i <= quotes.len(),
            quote_of(quotes@, venue) == quote_of(quotes@.skip(i as int), venue),
        decreases quotes.len() - i,
    {
        if quotes[i].venue == venue {
            return Some(&quotes[i]);
        }
        assert(quotes@.skip(i as int).skip(1) == quotes@.skip(i + 1));
        i += 1;
    }
    None
}

fn charge(
    c: &Arithmetic,
    slot: &Slot,
    venue: VenueId,
    contract: &CanonicalContractId,
    extra_buy: Double,
    extra_sell: Double,
) -> (r: (Double, Double))
    ensures
        r == charged(c, *slot, venue, contract@, extra_buy, extra_sell),
{
    let zero = Double::from_bits(ZERO);
    if slot.stands_at(venue, contract) {
        slot.ends(c, extra_buy, extra_sell)
    } else {
        slot.ends(c, zero, zero)
    }
}

fn skips(filter: Option<VenueId>, venue: VenueId) -> (r: bool)
    ensures
        r == (filter matches Some(f) && venue != f),
{
    match filter {
        Some(f) => venue != f,
        None => false,
    }
}

/// The sum of every slot's own worst case, of one venue or of all.
fn gross_worst_case(
    c: &Arithmetic,
    slots: &Vec<Slot>,
    filter: Option<VenueId>,
    venue: VenueId,
    contract: &CanonicalContractId,
    extra_buy: Double,
    extra_sell: Double,
) -> (r: Double)
    ensures
        r == gross(c, slots@, filter, venue, contract@, extra_buy, extra_sell),
{
    let mut total = Double::from_bits(ZERO);
    let mut i: usize = 0;
    while i < slots.len()
        invariant
            i <= slots.len(),
            total == gross(
                c,
                slots@.take(i as int),
                filter,
                venue,
                contract@,
                extra_buy,
                extra_sell,
            ),
        decreases slots.len() - i,
    {
        assert(slots@.take(i + 1).drop_last() == slots@.take(i as int));
        assert(slots@.take(i + 1).last() == slots@[i as int]);
        if !skips(filter, slots[i].venue) {
            let (low, high) = charge(c, &slots[i], venue, contract, extra_buy, extra_sell);
            total = c.plus(total, high.larger(low.neg()));
        }
        i += 1;
    }
    assert(slots@.take(i as int) == slots@);
    total
}

fn is_flipped(contract: &CanonicalContractId) -> (r: bool)
    ensures
        r == flips(contract@),
{
    match contract.direction() {
        Some(d) => d.exposure_sign().lt(Double::from_bits(ZERO)),
        None => false,
    }
}

fn held_total(c: &Arithmetic, slots: &Vec<Slot>, filter: Option<VenueId>) -> (r: Double)
    ensures
        r == held_notional(c, slots@, filter),
{
    let mut total = Double::from_bits(ZERO);
    let mut i: usize = 0;
    while i < slots.len()
        invariant
            i <= slots.len(),
            total == held_notional(c, slots@.take(i as int), filter),
        decreases slots.len() - i,
    {
        assert(slots@.take(i + 1).drop_last() == slots@.take(i as int));
        assert(slots@.take(i + 1).last() == slots@[i as int]);
        match &slots[i].position {
            Some(p) => if !skips(filter, slots[i].venue) {
                total = c.plus(total, ledger::position_risk_notional(c, p));
            },
            None => {},
        }
        i += 1;
    }
    assert(slots@.take(i as int) == slots@);
    total
}

/// The money at risk in positions and live orders, of one venue or of all.
fn notional_total(c: &Arithmetic, slots: &Vec<Slot>, filter: Option<VenueId>) -> (r: Double)
    ensures
        r == notional(c, slots@, slots@, filter),
{
    let mut total = held_total(c, slots, filter);
    let mut i: usize = 0;
    while i < slots.len()
        invariant
            i <= slots.len(),
            total == notional(c, slots@.take(i as int), slots@, filter),
        decreases slots.len() - i,
    {
        assert(slots@.take(i + 1).drop_last() == slots@.take(i as int));
        assert(slots@.take(i + 1).last() == slots@[i as int]);
        match &slots[i].working {
            Some(r) => if !skips(filter, slots[i].venue) {
                total = c.plus(total, c.plus(r.buy_notional, r.sell_notional));
            },
            None => {},
        }
        i += 1;
    }
    assert(slots@.take(i as int) == slots@);
    total
}

impl RiskGate {
    /// A gate that has not been told the real positions: it refuses every order.
    pub fn new(limits: RiskLimits) -> (r: RiskGate)
        ensures
            r@ == (GateState {
                limits,
                slots: Seq::empty(),
                live: Seq::empty(),
                clusters: Map::empty(),
                switch: SwitchState::clear(),
                reconciled: false,
                start_equity: None,
                peak_equity: Double::from_bits(ZERO),
            }),
    {
        RiskGate {
            limits,
            ledger: Ledger::new(),
            live: Vec::new(),
            cluster_of: TextMap::new(),
            kill_switch: KillSwitch::new(),
            reconciled: false,
            session_start_equity: None,
            peak_equity: Double::from_bits(ZERO),
        }
    }

    /// A gate for a simulation, where flat is the truth at the start.
    pub fn new_presumed_flat(limits: RiskLimits) -> (r: RiskGate)
        ensures
            r@ == (GateState {
                limits,
                slots: Seq::empty(),
                live: Seq::empty(),
                clusters: Map::empty(),
                switch: SwitchState::clear(),
                reconciled: true,
                start_equity: None,
                peak_equity: Double::from_bits(ZERO),
            }),
    {
        let mut gate = RiskGate::new(limits);
        gate.mark_reconciled();
        gate
    }

    /// Whether the risk gate has been told the real positions.
    pub fn is_reconciled(&self) -> (r: bool)
        ensures
            r == self@.reconciled,
    {
        self.reconciled
    }

    /// Lets the risk gate trade. To be called once every position and working order is loaded.
    pub fn mark_reconciled(&mut self)
        ensures
            final(self)@ == (GateState { reconciled: true, ..old(self)@ }),
    {
        self.reconciled = true;
    }

    /// Loads a position as a venue reports it. One that is not valid is refused and changes
    /// nothing.
    pub fn set_position(&mut self, c: &Arithmetic, position: Position) -> (r: Result<
        (),
        ValidationError,
    >)
        ensures
            validate::fault_in(r) == position.fault(c),
            r is Err ==> final(self)@ == old(self)@,
            r is Ok ==> final(self)@ == (GateState {
                slots: ledger::with_slot(
                    old(self)@.slots,
                    Slot {
                        position: Some(position),
                        ..ledger::slot_of(old(self)@.slots, position.venue, position.contract)
                    },
                ),
                ..old(self)@
            }),
    {
        match position.validate(c) {
            Err(e) => return Err(e),
            Ok(_) => {},
        }
        let mut slot = self.ledger.slot(position.venue, &position.contract);
        slot.position = Some(position);
        self.ledger.put(slot);
        Ok(())
    }

    /// The halts.
    pub fn kill_switch(&self) -> (r: &KillSwitch)
        ensures
            r@ == self@.switch,
    {
        &self.kill_switch
    }

    /// Halts everything. Anything that finds a fault may call it.
    pub fn trip_global(&mut self, reason: &str)
        ensures
            final(self)@.switch.global matches Some(t) && t.scope == TripScope::Global && t.reason@
                == reason@,
            final(self)@ == (GateState {
                switch: old(self)@.switch.with_global(final(self)@.switch.global->0),
                ..old(self)@
            }),
    {
        self.kill_switch.trip_global(reason);
    }

    /// Halts one venue.
    pub fn trip_venue(&mut self, venue: VenueId, reason: &str)
        ensures
            final(self)@.switch.venues.at(venue) matches Some(t) && t.scope == TripScope::Venue(
                venue,
            ) && t.reason@ == reason@,
            final(self)@ == (GateState {
                switch: SwitchState {
                    venues: old(self)@.switch.venues.with(
                        venue,
                        final(self)@.switch.venues.at(venue),
                    ),
                    ..old(self)@.switch
                },
                ..old(self)@
            }),
    {
        self.kill_switch.trip_venue(venue, reason);
    }

    /// Halts one contract.
    pub fn trip_contract(&mut self, contract: CanonicalContractId, reason: &str)
        ensures
            final(self)@.switch.contracts.contains_key(contract@),
            final(self)@.switch.contracts[contract@].scope == TripScope::Contract(contract),
            final(self)@.switch.contracts[contract@].reason@ == reason@,
            final(self)@.switch.order == (if old(self)@.switch.contracts.contains_key(contract@) {
                old(self)@.switch.order
            } else {
                old(self)@.switch.order.push(contract@)
            }),
            final(self)@.switch.contracts == old(self)@.switch.contracts.insert(
                contract@,
                final(self)@.switch.contracts[contract@],
            ),
            final(self)@ == (GateState {
                switch: SwitchState {
                    contracts: final(self)@.switch.contracts,
                    order: final(self)@.switch.order,
                    ..old(self)@.switch
                },
                ..old(self)@
            }),
    {
        self.kill_switch.trip_contract(contract, reason);
    }

    /// Lifts every halt, on an operator's word.
    pub fn operator_reset_kill_switches(&mut self)
        ensures
            final(self)@ == (GateState { switch: SwitchState::clear(), ..old(self)@ }),
    {
        self.kill_switch.reset_all();
    }

    /// Says which cluster a contract is netted in. One that is never registered is a cluster of
    /// its own.
    pub fn register_contract(&mut self, contract: CanonicalContractId, cluster: ClusterKey)
        ensures
            final(self)@ == (GateState {
                clusters: old(self)@.clusters.insert(contract@, cluster),
                ..old(self)@
            }),
    {
        self.cluster_of.insert(contract.0, cluster);
    }

    fn cluster_of(&self, contract: &CanonicalContractId) -> (r: ClusterKey)
        ensures
            r.0@ == self@.cluster(contract@),
    {
        match self.cluster_of.get(contract.0.as_str()) {
            Some(cluster) => cluster.clone(),
            None => ClusterKey(contract.0.clone()),
        }
    }

    /// The filled quantity of a contract on a venue.
    pub fn position_qty(&self, venue: VenueId, contract: &CanonicalContractId) -> (r: Double)
        ensures
            r == ledger::slot_of(self@.slots, venue, *contract).qty(),
    {
        match &self.ledger.slot(venue, contract).position {
            Some(p) => p.qty,
            None => Double::from_bits(ZERO),
        }
    }

    /// The net exposure of a contract on a venue: what is held and what is working. Nothing
    /// where there is neither.
    pub open spec fn exposure(
        c: &Arithmetic,
        slots: Seq<Slot>,
        venue: VenueId,
        contract: CanonicalContractId,
    ) -> Option<Double> {
        let slot = ledger::slot_of(slots, venue, contract);
        let held = match slot.position {
            Some(p) => Some(p.qty),
            None => None,
        };
        match slot.working {
            Some(r) => if r.is_empty() {
                held
            } else {
                Some(c.plus(slot.qty(), c.minus(r.buy_qty, r.sell_qty)))
            },
            None => held,
        }
    }

    fn exposure_on(&self, c: &Arithmetic, venue: VenueId, contract: &CanonicalContractId) -> (r:
        Option<Double>)
        ensures
            r == RiskGate::exposure(c, self@.slots, venue, *contract),
    {
        let slot = self.ledger.slot(venue, contract);
        let held = match &slot.position {
            Some(p) => Some(p.qty),
            None => None,
        };
        match &slot.working {
            Some(r) => if r.is_empty() {
                held
            } else {
                let qty = match held {
                    Some(q) => q,
                    None => Double::from_bits(ZERO),
                };
                Some(c.plus(qty, c.minus(r.buy_qty, r.sell_qty)))
            },
            None => held,
        }
    }

    /// The net exposure of a contract by venue, so that an engine sees what it is on the hook
    /// for and does not propose what is already working.
    pub fn inventory_for(&self, c: &Arithmetic, contract: &CanonicalContractId) -> (r: VenueMap<
        Double,
    >)
        ensures
            forall|venue: VenueId| #[trigger]
                r.at(venue) == RiskGate::exposure(c, self@.slots, venue, *contract),
    {
        VenueMap {
            polymarket: self.exposure_on(c, VenueId::Polymarket, contract),
            kalshi: self.exposure_on(c, VenueId::Kalshi, contract),
            paper: self.exposure_on(c, VenueId::Paper, contract),
        }
    }

    /// Every position that is held, in order of venue and contract.
    pub open spec fn held_positions(slots: Seq<Slot>) -> Seq<
        (VenueId, CanonicalContractId, Position),
    >
        decreases slots.len(),
    {
        if slots.len() == 0 {
            Seq::empty()
        } else {
            let before = RiskGate::held_positions(slots.drop_last());
            match slots.last().position {
                Some(p) => before.push((slots.last().venue, slots.last().contract, p)),
                None => before,
            }
        }
    }

    /// A copy of every position, for reports.
    pub fn positions_snapshot(&self) -> (r: Vec<(VenueId, CanonicalContractId, Position)>)
        ensures
            r@ == RiskGate::held_positions(self@.slots),
    {
        let slots = self.ledger.slots();
        let mut out: Vec<(VenueId, CanonicalContractId, Position)> = Vec::new();
        let mut i: usize = 0;
        while i < slots.len()
            invariant
                i <= slots.len(),
                out@ == RiskGate::held_positions(slots@.take(i as int)),
            decreases slots.len() - i,
        {
            assert(slots@.take(i + 1).drop_last() == slots@.take(i as int));
            assert(slots@.take(i + 1).last() == slots@[i as int]);
            match &slots[i].position {
                Some(p) => out.push((slots[i].venue, slots[i].contract.clone(), p.clone())),
                None => {},
            }
            i += 1;
        }
        assert(slots@.take(i as int) == slots@);
        out
    }

    /// The slots after a fill.
    pub open spec fn filled(
        c: &Arithmetic,
        slots: Seq<Slot>,
        venue: VenueId,
        contract: CanonicalContractId,
        qty: Double,
        price: Double,
        fee: Double,
    ) -> Seq<Slot> {
        let slot = ledger::slot_of(slots, venue, contract);
        ledger::with_slot(
            slots,
            Slot { position: Some(slot.held().filled(c, qty, price, fee)), ..slot },
        )
    }

    /// Applies one signed fill and returns what it realized.
    pub fn record_fill(
        &mut self,
        c: &Arithmetic,
        venue: VenueId,
        contract: &CanonicalContractId,
        signed_qty: Double,
        price: Double,
        fee: Double,
    ) -> (r: Double)
        ensures
            r == ledger::slot_of(old(self)@.slots, venue, *contract).held().realized_by(
                c,
                signed_qty,
                price,
            ),
            final(self)@ == (GateState {
                slots: RiskGate::filled(
                    c,
                    old(self)@.slots,
                    venue,
                    *contract,
                    signed_qty,
                    price,
                    fee,
                ),
                ..old(self)@
            }),
    {
        let mut slot = self.ledger.slot(venue, contract);
        let mut position = match &slot.position {
            Some(p) => p.clone(),
            None => Position::flat(slot.venue, slot.contract.clone()),
        };
        let realized = position.apply_fill(c, signed_qty, price, fee);
        slot.position = Some(position);
        self.ledger.put(slot);
        realized
    }

    /// Reserves an order's full size. To be called once the order has cleared and before it is
    /// sent: a resting order is exposure from the moment it is live.
    pub fn reserve(&mut self, c: &Arithmetic, intent: &OrderIntent)
        ensures
            final(self)@ == reserving(c, old(self)@, *intent),
    {
        let mut slot = self.ledger.slot(intent.venue, &intent.contract);
        let live = match slot.working {
            Some(r) => r,
            None => Reservation::empty(),
        };
        slot.working = Some(live.add_order(c, intent));
        self.ledger.put(slot);
        self.live.push(LiveOrder { intent: intent.clone(), left: intent.size });
    }

    /// Releases all that is left of an order's own reservation: for a final answer. What its
    /// neighbours on the side have reserved stays.
    pub fn release(&mut self, c: &Arithmetic, intent: &OrderIntent)
        ensures
            final(self)@ == RiskGate::reduced(
                c,
                old(self)@,
                *intent,
                Double::from_bits(INFINITY),
            ),
    {
        self.reduce_reservation(c, intent, Double::from_bits(INFINITY));
    }

    /// The risk gate with up to `qty` of an order's own reservation taken off. An order without a
    /// reservation changes nothing, and a side without a live order holds nothing.
    pub open spec fn reduced(
        c: &Arithmetic,
        g: GateState,
        intent: OrderIntent,
        qty: Double,
    ) -> GateState {
        if live::is_live(g.live, intent) {
            let own = g.live[live::place(g.live, intent)].left;
            let wanted = qty.larger(Double::from_bits(ZERO));
            let rest = live::cut(c, g.live, intent, wanted);
            let slot = ledger::slot_of(g.slots, intent.venue, intent.contract);
            let working = if live::side_works(rest, intent) {
                slot.live().less(c, intent, wanted.smaller(own))
            } else {
                slot.live().without(intent.side)
            };
            GateState {
                slots: ledger::with_slot(g.slots, Slot { working: Some(working), ..slot }),
                live: rest,
                ..g
            }
        } else {
            g
        }
    }

    /// Releases up to `qty` of an order's own reservation: for a partial fill.
    pub fn reduce_reservation(&mut self, c: &Arithmetic, intent: &OrderIntent, qty: Double)
        ensures
            final(self)@ == RiskGate::reduced(c, old(self)@, *intent, qty),
    {
        let place: usize = match live::find(&self.live, intent) {
            Some(place) => place,
            None => return,
        };
        let own = self.live[place].left;
        let wanted = qty.larger(Double::from_bits(ZERO));
        if wanted.lt(own) {
            let order = self.live[place].intent.clone();
            self.live.set(place, LiveOrder { intent: order, left: c.minus(own, wanted) });
        } else {
            let _ = self.live.remove(place);
        }
        assert(self.live@ =~= live::cut(c, old(self)@.live, *intent, wanted));
        let mut slot = self.ledger.slot(intent.venue, &intent.contract);
        let before = match slot.working {
            Some(r) => r,
            None => Reservation::empty(),
        };
        slot.working = Some(
            if live::any_beside(&self.live, intent) {
                before.take_off(c, intent, wanted.smaller(own))
            } else {
                before.clear(intent.side)
            },
        );
        self.ledger.put(slot);
    }

    /// Whether the rest of an order is still live after an answer. What is left of a limit order
    /// rests; what is left of an immediate-or-cancel order is gone.
    pub fn leaves_order_working(order_type: OrderType, status: &AckStatus) -> (r: bool)
        ensures
            r == (match status {
                AckStatus::Accepted => true,
                AckStatus::PartiallyFilled { .. } => order_type == OrderType::Limit,
                _ => false,
            }),
    {
        match status {
            AckStatus::Accepted => true,
            AckStatus::PartiallyFilled { .. } => match order_type {
                OrderType::Limit => true,
                OrderType::ImmediateOrCancel => false,
            },
            _ => false,
        }
    }

    /// The text of a halt for the loss of the session.
    pub open spec fn loss_text(c: &Arithmetic, loss: Double, limit: Double) -> Seq<char> {
        "session loss "@ + c.text_of(Style::FourPlaces, loss) + " exceeds max_session_loss "@
            + c.text_of(Style::FourPlaces, limit)
    }

    /// The text of a halt for the fall from the peak.
    pub open spec fn drawdown_text(c: &Arithmetic, fall: Double, limit: Double) -> Seq<char> {
        "drawdown "@ + c.text_of(Style::FourPlaces, fall)
            + " from peak exceeds max_drawdown_from_peak "@ + c.text_of(Style::FourPlaces, limit)
    }

    /// The text of the halt that a mark brings, if it brings one; the drawdown's where both
    /// limits are passed.
    pub open spec fn mark_halt(c: &Arithmetic, g: GateState, equity: Double) -> Option<Seq<char>> {
        if !equity.is_finite() {
            Some("mark_to_market received non-finite equity"@)
        } else {
            match g.start_equity {
                None => None,
                Some(start) => {
                    let loss = c.minus(start, equity);
                    let fall = c.minus(g.peak_equity.larger(equity), equity);
                    if fall.gt(g.limits.max_drawdown_from_peak) {
                        Some(RiskGate::drawdown_text(c, fall, g.limits.max_drawdown_from_peak))
                    } else if loss.gt(g.limits.max_session_loss) {
                        Some(RiskGate::loss_text(c, loss, g.limits.max_session_loss))
                    } else {
                        None
                    }
                },
            }
        }
    }

    /// Whether `switch` is what the halts are after a mark: a mark that passes a limit adds a
    /// global halt with its text, at whatever time the clock shows, and another changes nothing.
    pub open spec fn halts(
        c: &Arithmetic,
        g: GateState,
        equity: Double,
        switch: SwitchState,
    ) -> bool {
        match RiskGate::mark_halt(c, g, equity) {
            Some(text) => switch.global matches Some(t) && t.scope == TripScope::Global
                && t.reason@ == text && switch == g.switch.with_global(t),
            None => switch == g.switch,
        }
    }

    /// The risk gate after a mark that left the halts as `switch`: the first mark is the start and
    /// the peak, and a later one may raise the peak.
    pub open spec fn marked(g: GateState, equity: Double, switch: SwitchState) -> GateState {
        GateState {
            switch,
            start_equity: if equity.is_finite() && g.start_equity is None {
                Some(equity)
            } else {
                g.start_equity
            },
            peak_equity: if !equity.is_finite() {
                g.peak_equity
            } else if g.start_equity is None {
                equity
            } else {
                g.peak_equity.larger(equity)
            },
            ..g
        }
    }

    /// Marks the equity. The first mark sets the start and the peak; later ones halt everything
    /// where the loss or the fall from the peak is over its limit. An equity that is not finite
    /// halts at once.
    pub fn mark_to_market(&mut self, c: &Arithmetic, equity: Double)
        ensures
            RiskGate::halts(c, old(self)@, equity, final(self)@.switch),
            final(self)@ == RiskGate::marked(old(self)@, equity, final(self)@.switch),
    {
        if !equity.is_finite() {
            self.kill_switch.trip_global("mark_to_market received non-finite equity");
            return;
        }
        match self.session_start_equity {
            None => {
                self.session_start_equity = Some(equity);
                self.peak_equity = equity;
            },
            Some(start) => {
                self.peak_equity = self.peak_equity.larger(equity);
                let session_loss = c.minus(start, equity);
                let limit = self.limits.max_session_loss;
                if session_loss.gt(limit) {
                    let mut text = "session loss ".to_owned();
                    text.append(c.text(Style::FourPlaces, session_loss).as_str());
                    text.append(" exceeds max_session_loss ");
                    text.append(c.text(Style::FourPlaces, limit).as_str());
                    self.kill_switch.trip_global(text.as_str());
                }
                let drawdown = c.minus(self.peak_equity, equity);
                let fall_limit = self.limits.max_drawdown_from_peak;
                if drawdown.gt(fall_limit) {
                    let mut text = "drawdown ".to_owned();
                    text.append(c.text(Style::FourPlaces, drawdown).as_str());
                    text.append(" from peak exceeds max_drawdown_from_peak ");
                    text.append(c.text(Style::FourPlaces, fall_limit).as_str());
                    self.kill_switch.trip_global(text.as_str());
                }
            },
        }
    }

    /// The range of a cluster over the slots.
    fn cluster_range(
        &self,
        c: &Arithmetic,
        slots: &Vec<Slot>,
        cluster: &ClusterKey,
        venue: VenueId,
        contract: &CanonicalContractId,
        extra_buy: Double,
        extra_sell: Double,
    ) -> (r: (Double, Double))
        ensures
            r == cluster_sum(
                c,
                self@,
                slots@,
                cluster.0@,
                venue,
                contract@,
                extra_buy,
                extra_sell,
            ),
    {
        let mut low_sum = Double::from_bits(ZERO);
        let mut high_sum = Double::from_bits(ZERO);
        let mut i: usize = 0;
        while i < slots.len()
            invariant
                i <= slots.len(),
                (low_sum, high_sum) == cluster_sum(
                    c,
                    self@,
                    slots@.take(i as int),
                    cluster.0@,
                    venue,
                    contract@,
                    extra_buy,
                    extra_sell,
                ),
            decreases slots.len() - i,
        {
            assert(slots@.take(i + 1).drop_last() == slots@.take(i as int));
            assert(slots@.take(i + 1).last() == slots@[i as int]);
            let own = self.cluster_of(&slots[i].contract);
            if own.0 == cluster.0 {
                let (low, high) = charge(c, &slots[i], venue, contract, extra_buy, extra_sell);
                if is_flipped(&slots[i].contract) {
                    low_sum = c.plus(low_sum, high.neg());
                    high_sum = c.plus(high_sum, low.neg());
                } else {
                    low_sum = c.plus(low_sum, low);
                    high_sum = c.plus(high_sum, high);
                }
            }
            i += 1;
        }
        assert(slots@.take(i as int) == slots@);
        (low_sum, high_sum)
    }

    fn cluster_case(
        &self,
        c: &Arithmetic,
        slots: &Vec<Slot>,
        cluster: &ClusterKey,
        venue: VenueId,
        contract: &CanonicalContractId,
        extra_buy: Double,
        extra_sell: Double,
    ) -> (r: Double)
        ensures
            r == cluster_worst(
                c,
                self@,
                slots@,
                cluster.0@,
                venue,
                contract@,
                extra_buy,
                extra_sell,
            ),
    {
        let (low, high) = self.cluster_range(
            c,
            slots,
            cluster,
            venue,
            contract,
            extra_buy,
            extra_sell,
        );
        high.larger(low.neg())
    }

    fn check_order(
        &self,
        c: &Arithmetic,
        intent: &OrderIntent,
        book: &ConsolidatedBook,
        now: Timestamp,
    ) -> (r: Result<(), RejectReason>)
        ensures
            refusal_in(r) == order_refusal(c, self@, *intent, book@, now),
    {
        if !self.reconciled {
            return Err(RejectReason::NotReconciled);
        }
        match intent.validate(c) {
            Err(e) => return Err(RejectReason::Invalid(e)),
            Ok(_) => {},
        }
        match self.kill_switch.reason_if_tripped(intent.venue, &intent.contract) {
            Some(reason) => return Err(RejectReason::KillSwitch { reason }),
            None => {},
        }
        let quotes = book.quotes(&intent.contract);
        let tick = match find_quote(&quotes, intent.venue) {
            None => return Err(RejectReason::NoMarketData),
            Some(tick) => tick,
        };
        let age: i64 = now.since(tick.receive_ts);
        if age < 0 {
            let skew_ns: i64 = if age == i64::MIN {
                i64::MAX
            } else {
                -age
            };
            return Err(RejectReason::ClockSkew { skew_ns });
        }
        if age > self.limits.max_feed_staleness_ns {
            return Err(
                RejectReason::FeedStale { age_ns: age, max_ns: self.limits.max_feed_staleness_ns },
            );
        }
        let touch = match intent.side {
            Side::Buy => tick.ask,
            Side::Sell => tick.bid,
        };
        let through = c.minus(intent.price, touch).abs();
        let aggressive = match intent.side {
            Side::Buy => intent.price.gt(touch),
            Side::Sell => intent.price.lt(touch),
        };
        if aggressive && through.gt(self.limits.max_price_through_book) {
            return Err(
                RejectReason::PriceThroughBook {
                    touch,
                    price: intent.price,
                    max_through: self.limits.max_price_through_book,
                },
            );
        }
        let notional = intent.risk_notional(c);
        if notional.gt(self.limits.max_notional_per_order) {
            return Err(
                RejectReason::NotionalPerOrderExceeded {
                    limit: self.limits.max_notional_per_order,
                    projected: notional,
                },
            );
        }
        Ok(())
    }

    fn check_exposure(&self, c: &Arithmetic, slots: &Vec<Slot>, intent: &OrderIntent) -> (r: Result<
        (),
        RejectReason,
    >)
        requires
            ledger::in_order(slots@),
        ensures
            refusal_in(r) == exposure_refusal(c, self@, slots@, *intent),
    {
        let zero = Double::from_bits(ZERO);
        let (extra_buy, extra_sell) = match intent.side {
            Side::Buy => (intent.size, zero),
            Side::Sell => (zero, intent.size),
        };
        let venue = intent.venue;
        let contract = &intent.contract;
        let mut all = ledger::copy_slots(slots);
        let at: usize = ledger::seat(&mut all, venue, contract);
        let contract_current = all[at].worst(c, zero, zero);
        let contract_projected = all[at].worst(c, extra_buy, extra_sell);
        if contract_projected.gt(self.limits.max_abs_qty_per_contract) && contract_projected.gt(
            contract_current,
        ) {
            return Err(
                RejectReason::ContractLimitExceeded {
                    limit: self.limits.max_abs_qty_per_contract,
                    projected: contract_projected,
                },
            );
        }
        let cluster = self.cluster_of(contract);
        let cluster_current = self.cluster_case(c, &all, &cluster, venue, contract, zero, zero);
        let cluster_projected = self.cluster_case(
            c,
            &all,
            &cluster,
            venue,
            contract,
            extra_buy,
            extra_sell,
        );
        if cluster_projected.gt(self.limits.max_abs_qty_per_cluster) && cluster_projected.gt(
            cluster_current,
        ) {
            return Err(
                RejectReason::ClusterLimitExceeded {
                    limit: self.limits.max_abs_qty_per_cluster,
                    projected: cluster_projected,
                },
            );
        }
        let venue_current = gross_worst_case(c, &all, Some(venue), venue, contract, zero, zero);
        let venue_projected = gross_worst_case(
            c,
            &all,
            Some(venue),
            venue,
            contract,
            extra_buy,
            extra_sell,
        );
        if venue_projected.gt(self.limits.max_gross_qty_per_venue) && venue_projected.gt(
            venue_current,
        ) {
            return Err(
                RejectReason::VenueLimitExceeded {
                    limit: self.limits.max_gross_qty_per_venue,
                    projected: venue_projected,
                },
            );
        }
        let total_current = gross_worst_case(c, &all, None, venue, contract, zero, zero);
        let total_projected = gross_worst_case(
            c,
            &all,
            None,
            venue,
            contract,
            extra_buy,
            extra_sell,
        );
        if total_projected.gt(self.limits.max_gross_qty_total) && total_projected.gt(
            total_current,
        ) {
            return Err(
                RejectReason::GrossLimitExceeded {
                    limit: self.limits.max_gross_qty_total,
                    projected: total_projected,
                },
            );
        }
        let money_venue = notional_total(c, &all, Some(venue));
        let money_venue_projected = c.plus(money_venue, intent.risk_notional(c));
        if money_venue_projected.gt(self.limits.max_notional_per_venue)
            && money_venue_projected.gt(money_venue) {
            return Err(
                RejectReason::NotionalVenueExceeded {
                    limit: self.limits.max_notional_per_venue,
                    projected: money_venue_projected,
                },
            );
        }
        let money_total = notional_total(c, &all, None);
        let money_total_projected = c.plus(money_total, intent.risk_notional(c));
        if money_total_projected.gt(self.limits.max_notional_total) && money_total_projected.gt(
            money_total,
        ) {
            return Err(
                RejectReason::NotionalTotalExceeded {
                    limit: self.limits.max_notional_total,
                    projected: money_total_projected,
                },
            );
        }
        Ok(())
    }

    fn check_against(
        &self,
        c: &Arithmetic,
        slots: &Vec<Slot>,
        intent: &OrderIntent,
        book: &ConsolidatedBook,
        now: Timestamp,
    ) -> (r: Result<(), RejectReason>)
        requires
            ledger::in_order(slots@),
        ensures
            refusal_in(r) == verdict(c, self@, slots@, *intent, book@, now),
    {
        match self.check_order(c, intent, book, now) {
            Err(e) => return Err(e),
            Ok(_) => {},
        }
        self.check_exposure(c, slots, intent)
    }

    /// Whether an order may proceed exactly as proposed.
    pub fn check(
        &self,
        c: &Arithmetic,
        intent: &OrderIntent,
        book: &ConsolidatedBook,
        now: Timestamp,
    ) -> (r: Result<(), RejectReason>)
        ensures
            refusal_in(r) == verdict(c, self@, self@.slots, *intent, book@, now),
    {
        self.check_against(c, self.ledger.slots(), intent, book, now)
    }

    /// Checks the orders of one tick together: each accepted one is reserved, on a scratch copy,
    /// before the next is looked at, so that several engines cannot jointly pass a limit that
    /// each alone keeps. The risk gate itself does not change.
    pub fn check_batch(
        &self,
        c: &Arithmetic,
        intents: &[OrderIntent],
        book: &ConsolidatedBook,
        now: Timestamp,
    ) -> (r: Vec<Result<(), RejectReason>>)
        ensures
            r.len() == intents.len(),
            forall|i: int|
                0 <= i < r.len() ==> refusal_in(#[trigger] r[i]) == verdict(
                    c,
                    self@,
                    after_batch(c, self@, intents@.take(i), book@, now),
                    intents[i],
                    book@,
                    now,
                ),
            forall|i: int|
                0 <= i < r.len() ==> refusal_in(#[trigger] r[i]) == ({
                    let g = one_by_one(c, self@, intents@.take(i), book@, now);
                    verdict(c, g, g.slots, intents[i], book@, now)
                }),
    {
        let mut scratch = self.ledger.copy();
        let mut results: Vec<Result<(), RejectReason>> = Vec::new();
        let mut i: usize = 0;
        assert(intents@.take(0) == Seq::<OrderIntent>::empty());
        while i < intents.len()
            invariant
                i <= intents.len(),
                results.len() == i,
                scratch@ == after_batch(c, self@, intents@.take(i as int), book@, now),
                forall|j: int|
                    0 <= j < i ==> refusal_in(#[trigger] results[j]) == verdict(
                        c,
                        self@,
                        after_batch(c, self@, intents@.take(j), book@, now),
                        intents[j],
                        book@,
                        now,
                    ),
            decreases intents.len() - i,
        {
            assert(intents@.take(i + 1).drop_last() == intents@.take(i as int));
            assert(intents@.take(i + 1).last() == intents@[i as int]);
            let intent = &intents[i];
            let result = self.check_against(c, scratch.slots(), intent, book, now);
            if result.is_ok() {
                let mut slot = scratch.slot(intent.venue, &intent.contract);
                let live = match slot.working {
                    Some(r) => r,
                    None => Reservation::empty(),
                };
                slot.working = Some(live.add_order(c, intent));
                scratch.put(slot);
            }
            results.push(result);
            i += 1;
        }
        assert forall|j: int| 0 <= j < results.len() implies refusal_in(#[trigger] results[j]) == ({
            let g = one_by_one(c, self@, intents@.take(j), book@, now);
            verdict(c, g, g.slots, intents[j], book@, now)
        }) by {
            law_batch_is_one_by_one(c, self@, intents@.take(j), intents[j], book@, now);
        }
        results
    }
}

/// A gate that has not been told the real positions refuses every order.
pub proof fn law_unreconciled_gate_refuses_everything(
    c: &Arithmetic,
    g: GateState,
    slots: Seq<Slot>,
    intent: OrderIntent,
    book: BookState,
    now: Timestamp,
)
    requires
        !g.reconciled,
    ensures
        verdict(c, g, slots, intent, book, now) == Some(Refusal::NotReconciled),
{
}

/// No order passes a halt, whatever else is true of it.
pub proof fn law_halt_refuses(
    c: &Arithmetic,
    g: GateState,
    slots: Seq<Slot>,
    intent: OrderIntent,
    book: BookState,
    now: Timestamp,
)
    requires
        g.switch.trip_for(intent.venue, intent.contract@) is Some,
    ensures
        verdict(c, g, slots, intent, book, now) is Some,
        g.reconciled && intent.is_valid() ==> verdict(c, g, slots, intent, book, now) == Some(
            Refusal::KillSwitch {
                reason: g.switch.trip_for(intent.venue, intent.contract@)->0.reason@,
            },
        ),
{
}

/// A mark that passes a limit on losses, or is no number, shuts the risk gate: no order clears
/// after it.
pub proof fn law_breach_shuts_the_risk_gate(
    c: &Arithmetic,
    g: GateState,
    equity: Double,
    switch: SwitchState,
    slots: Seq<Slot>,
    intent: OrderIntent,
    book: BookState,
    now: Timestamp,
)
    requires
        RiskGate::mark_halt(c, g, equity) is Some,
        RiskGate::halts(c, g, equity, switch),
    ensures
        verdict(c, RiskGate::marked(g, equity, switch), slots, intent, book, now) is Some,
{
}

/// Whether an axis is within its limit, or no worse than it was.
pub open spec fn within(axis: Axis, limit: Double) -> bool {
    !axis.projected.gt(limit) || !axis.projected.gt(axis.current)
}

/// An order that clears is valid, on a venue with a fresh quote that does not lie in the future,
/// priced within the collar, and within every limit or not making worse what is over one.
pub proof fn law_cleared_order_is_within_limits(
    c: &Arithmetic,
    g: GateState,
    slots: Seq<Slot>,
    intent: OrderIntent,
    book: BookState,
    now: Timestamp,
)
    requires
        verdict(c, g, slots, intent, book, now) is None,
    ensures
        g.reconciled,
        intent.is_valid(),
        g.switch.trip_for(intent.venue, intent.contract@) is None,
        quote_of(book.quotes(intent.contract@), intent.venue) matches Some(tick) && 0 <= now.age(
            tick.receive_ts,
        ) <= g.limits.max_feed_staleness_ns && !through_book(
            c,
            intent.side,
            intent.price,
            touch_of(tick, intent.side),
            g.limits.max_price_through_book,
        ),
        !intent.notional(c).gt(g.limits.max_notional_per_order),
        within(contract_axis(c, slots, intent), g.limits.max_abs_qty_per_contract),
        within(cluster_axis(c, g, slots, intent), g.limits.max_abs_qty_per_cluster),
        within(gross_axis(c, slots, intent, Some(intent.venue)), g.limits.max_gross_qty_per_venue),
        within(gross_axis(c, slots, intent, None), g.limits.max_gross_qty_total),
        within(
            notional_axis(c, slots, intent, Some(intent.venue)),
            g.limits.max_notional_per_venue,
        ),
        within(notional_axis(c, slots, intent, None), g.limits.max_notional_total),
{
}

/// Limits bound exposure, they do not trap it: an order that makes no axis larger than it is
/// clears every limit on exposure, however far over it stands.
pub proof fn law_shrinking_order_is_not_trapped(
    c: &Arithmetic,
    g: GateState,
    slots: Seq<Slot>,
    intent: OrderIntent,
)
    requires
        ({
            let a = contract_axis(c, slots, intent);
            !a.projected.gt(a.current)
        }),
        ({
            let a = cluster_axis(c, g, slots, intent);
            !a.projected.gt(a.current)
        }),
        ({
            let a = gross_axis(c, slots, intent, Some(intent.venue));
            !a.projected.gt(a.current)
        }),
        ({
            let a = gross_axis(c, slots, intent, None);
            !a.projected.gt(a.current)
        }),
        ({
            let a = notional_axis(c, slots, intent, Some(intent.venue));
            !a.projected.gt(a.current)
        }),
        ({
            let a = notional_axis(c, slots, intent, None);
            !a.projected.gt(a.current)
        }),
    ensures
        exposure_refusal(c, g, slots, intent) is None,
{
}

/// A reserved order is seen at once: its slot's live quantity grows by it, its position does not
/// move, and no other slot changes.
pub proof fn law_reservation_is_visible(
    c: &Arithmetic,
    slots: Seq<Slot>,
    intent: OrderIntent,
    venue: VenueId,
    contract: CanonicalContractId,
)
    requires
        ledger::in_order(slots),
    ensures
        ({
            let before = ledger::slot_of(slots, venue, contract);
            let after = ledger::slot_of(reserved(c, slots, intent), venue, contract);
            if venue == intent.venue && contract@ == intent.contract@ {
                let own = ledger::slot_of(slots, intent.venue, intent.contract);
                after.live() == own.live().plus(c, intent) && after.position == own.position
            } else {
                after == before
            }
        }),
{
    let slot = ledger::slot_of(slots, intent.venue, intent.contract);
    ledger::lemma_seated(slots, intent.venue, intent.contract);
    let p = ledger::place(slots, intent.venue, intent.contract@);
    assert(ledger::seated(slots, intent.venue, intent.contract)[p].is_sound());
    ledger::law_put_changes_one_slot(
        slots,
        Slot { working: Some(slot.live().plus(c, intent)), ..slot },
        venue,
        contract,
    );
}

/// Releasing an order takes off what is left of it and no more: its side falls by that, its
/// neighbours on the side stay live with what they had, and neither the other side nor another
/// slot changes. Where it was the last live order of its side, the side is empty.
pub proof fn law_release_takes_only_its_own(
    c: &Arithmetic,
    g: GateState,
    intent: OrderIntent,
    venue: VenueId,
    contract: CanonicalContractId,
)
    requires
        ledger::in_order(g.slots),
        live::is_live(g.live, intent),
        g.live[live::place(g.live, intent)].left.is_finite(),
    ensures
        ({
            let p = live::place(g.live, intent);
            let own = g.live[p].left;
            let after = RiskGate::reduced(c, g, intent, Double::from_bits(INFINITY));
            let was = ledger::slot_of(g.slots, venue, contract);
            let is = ledger::slot_of(after.slots, venue, contract);
            &&& after.live == g.live.remove(p)
            &&& is.position == was.position
            &&& !(venue == intent.venue && contract@ == intent.contract@) ==> is == was
            &&& venue == intent.venue && contract@ == intent.contract@ ==> match intent.side {
                Side::Buy => {
                    &&& is.live().sell_qty == was.live().sell_qty
                    &&& is.live().sell_notional == was.live().sell_notional
                    &&& live::side_works(after.live, intent) && own.le(was.live().buy_qty)
                        && own.ge(Double::from_bits(ZERO)) ==> {
                        &&& is.live().buy_qty == c.minus(was.live().buy_qty, own)
                        &&& is.live().buy_notional == c.minus(
                            was.live().buy_notional,
                            c.times(Reservation::unit_notional(c, intent), own),
                        ).larger(Double::from_bits(ZERO))
                    }
                    &&& !live::side_works(after.live, intent) ==> is.live().buy_qty
                        == Double::from_bits(ZERO) && is.live().buy_notional
                        == Double::from_bits(ZERO)
                },
                Side::Sell => {
                    &&& is.live().buy_qty == was.live().buy_qty
                    &&& is.live().buy_notional == was.live().buy_notional
                    &&& live::side_works(after.live, intent) && own.le(was.live().sell_qty)
                        && own.ge(Double::from_bits(ZERO)) ==> {
                        &&& is.live().sell_qty == c.minus(was.live().sell_qty, own)
                        &&& is.live().sell_notional == c.minus(
                            was.live().sell_notional,
                            c.times(Reservation::unit_notional(c, intent), own),
                        ).larger(Double::from_bits(ZERO))
                    }
                    &&& !live::side_works(after.live, intent) ==> is.live().sell_qty
                        == Double::from_bits(ZERO) && is.live().sell_notional
                        == Double::from_bits(ZERO)
                },
            }
        }),
{
    let endless = Double::from_bits(INFINITY);
    let own = g.live[live::place(g.live, intent)].left;
    assert(endless.larger(Double::from_bits(ZERO)) == endless);
    assert(!endless.lt(own));
    assert(endless.smaller(own) == own);
    let rest = live::cut(c, g.live, intent, endless);
    let slot = ledger::slot_of(g.slots, intent.venue, intent.contract);
    let working = if live::side_works(rest, intent) {
        slot.live().less(c, intent, own)
    } else {
        slot.live().without(intent.side)
    };
    ledger::lemma_seated(g.slots, intent.venue, intent.contract);
    let p = ledger::place(g.slots, intent.venue, intent.contract@);
    assert(ledger::seated(g.slots, intent.venue, intent.contract)[p].is_sound());
    ledger::law_put_changes_one_slot(
        g.slots,
        Slot { working: Some(working), ..slot },
        venue,
        contract,
    );
}

/// A release undoes a reservation: of an order that was not live before, nothing is left, and
/// every other live order is as it was.
pub proof fn law_release_undoes_a_reservation(c: &Arithmetic, g: GateState, intent: OrderIntent)
    requires
        !live::is_live(g.live, intent),
    ensures
        ({
            let held = reserving(c, g, intent);
            let after = RiskGate::reduced(c, held, intent, Double::from_bits(INFINITY));
            after.live == g.live
        }),
{
    let endless = Double::from_bits(INFINITY);
    let held = reserving(c, g, intent);
    live::lemma_place(g.live, intent);
    assert(held.live.drop_last() =~= g.live);
    assert(live::place(held.live, intent) == g.live.len());
    assert(endless.larger(Double::from_bits(ZERO)) == endless);
    assert(!endless.lt(intent.size));
    assert(held.live.remove(g.live.len() as int) =~= g.live);
}

/// A refused order changes nothing for the orders after it; an accepted one is counted before
/// the next is looked at.
pub proof fn law_batch_counts_what_it_accepts(
    c: &Arithmetic,
    g: GateState,
    intents: Seq<OrderIntent>,
    next: OrderIntent,
    book: BookState,
    now: Timestamp,
)
    ensures
        ({
            let before = after_batch(c, g, intents, book, now);
            after_batch(c, g, intents.push(next), book, now) == (if verdict(
                c,
                g,
                before,
                next,
                book,
                now,
            ) is None {
                reserved(c, before, next)
            } else {
                before
            })
        }),
{
    assert(intents.push(next).drop_last() == intents);
}

/// Whether two states of the risk gate differ in nothing but their reservations.
pub open spec fn same_rules(a: GateState, b: GateState) -> bool {
    &&& a.limits == b.limits
    &&& a.clusters == b.clusters
    &&& a.switch == b.switch
    &&& a.reconciled == b.reconciled
}

proof fn lemma_cluster_sum_of_same_rules(
    c: &Arithmetic,
    a: GateState,
    b: GateState,
    slots: Seq<Slot>,
    cluster: Seq<char>,
    venue: VenueId,
    contract: Seq<char>,
    extra_buy: Double,
    extra_sell: Double,
)
    requires
        same_rules(a, b),
    ensures
        cluster_sum(c, a, slots, cluster, venue, contract, extra_buy, extra_sell) == cluster_sum(
            c,
            b,
            slots,
            cluster,
            venue,
            contract,
            extra_buy,
            extra_sell,
        ),
    decreases slots.len(),
{
    if slots.len() > 0 {
        lemma_cluster_sum_of_same_rules(
            c,
            a,
            b,
            slots.drop_last(),
            cluster,
            venue,
            contract,
            extra_buy,
            extra_sell,
        );
    }
}

proof fn lemma_verdict_of_same_rules(
    c: &Arithmetic,
    a: GateState,
    b: GateState,
    slots: Seq<Slot>,
    intent: OrderIntent,
    book: BookState,
    now: Timestamp,
)
    requires
        same_rules(a, b),
    ensures
        verdict(c, a, slots, intent, book, now) == verdict(c, b, slots, intent, book, now),
{
    let all = ledger::seated(slots, intent.venue, intent.contract);
    let zero = Double::from_bits(ZERO);
    let (eb, es) = extras(intent);
    let name = intent.contract@;
    let cluster = a.cluster(name);
    lemma_cluster_sum_of_same_rules(c, a, b, all, cluster, intent.venue, name, zero, zero);
    lemma_cluster_sum_of_same_rules(c, a, b, all, cluster, intent.venue, name, eb, es);
}

/// A batch gives what checking and reserving one by one gives: its scratch slots are those of a
/// gate that was told of each accepted order, and what it says of the next order is what that
/// gate says of it. The risk gate itself stays as it was.
pub proof fn law_batch_is_one_by_one(
    c: &Arithmetic,
    g: GateState,
    intents: Seq<OrderIntent>,
    next: OrderIntent,
    book: BookState,
    now: Timestamp,
)
    ensures
        ({
            let after = one_by_one(c, g, intents, book, now);
            &&& same_rules(after, g)
            &&& after_batch(c, g, intents, book, now) == after.slots
            &&& verdict(c, g, after_batch(c, g, intents, book, now), next, book, now) == verdict(
                c,
                after,
                after.slots,
                next,
                book,
                now,
            )
        }),
    decreases intents.len(),
{
    if intents.len() > 0 {
        law_batch_is_one_by_one(c, g, intents.drop_last(), intents.last(), book, now);
    }
    let after = one_by_one(c, g, intents, book, now);
    lemma_verdict_of_same_rules(c, g, after, after.slots, next, book, now);
}

} // verus!
