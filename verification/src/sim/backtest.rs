//! The backtest: book, alpha, strategy and risk driven by replayed events. It decides; what a
//! venue has to do is asked for, and the venue's answer comes back as the next event.
use vstd::prelude::*;
use crate::alpha::aggregator;
use crate::alpha::aggregator::AggregatorConfig;
use crate::alpha::source::{AlphaSource, Sources};
use crate::alpha::sources::weather::WeatherEnsembleSource;
use crate::book::{BookState, ConsolidatedBook};
use crate::double::{Arithmetic, Double, INFINITY, ONE, ZERO};
use crate::keyed::{TextMap, VenueMap};
use crate::risk::gate;
use crate::risk::gate::{GateState, Refusal, RejectReason, RiskGate, RiskLimits};
use crate::risk::kill_switch::SwitchState;
use crate::risk::ledger;
use crate::risk::ledger::Slot;
use crate::sim::replay::ReplayEvent;
use crate::sim::report;
use crate::sim::report::{BacktestReport, ReportState};
use crate::strategy::calibration::{
    CalibrationState, Calibrator, FillOutcome, DEFAULT_ALPHA,
};
use crate::strategy::engine;
use crate::strategy::engine::{
    Engine, Lineup, Snapshot, StrategyCore, StrategyEngine, StrategyInput,
};
use crate::text;
use crate::types::alpha::{AlphaEventKind, FairView, ProbabilityEstimate, RawEvent};
use crate::types::contract::{CanonicalContractId, ClusterKey};
use crate::types::market::NormalizedTick;
use crate::types::orders::{AckStatus, ExecError, OrderAck, OrderIntent, OrderType, Side};
use crate::types::position;
use crate::types::position::Position;
use crate::types::time::Timestamp;
use crate::types::venue::{FeeModel, VenueId};
use std::collections::VecDeque;

verus! {

/// What is to be done next.
#[derive(Debug)]
pub enum Action {
    /// Tell the venue of a quote, and hand back which resting orders it fills.
    AdvanceMarket(NormalizedTick),
    /// Submit an order, and hand back the venue's answer.
    Submit(OrderIntent),
    /// Nothing: the event is dealt with.
    Idle,
}

/// The last estimate of one source.
#[derive(Debug)]
pub struct SourceEstimate {
    pub source: String,
    pub estimate: ProbabilityEstimate,
}

/// The last estimate of one source, as plain values.
pub struct Opinion {
    pub source: Seq<char>,
    pub estimate: ProbabilityEstimate,
}

impl View for SourceEstimate {
    type V = Opinion;

    open spec fn view(&self) -> Opinion {
        Opinion { source: self.source@, estimate: self.estimate }
    }
}

/// An order that the risk gate refused, and why.
#[derive(Debug)]
pub struct RefusedOrder {
    pub intent: OrderIntent,
    pub reason: RejectReason,
}

impl View for RefusedOrder {
    type V = (OrderIntent, Refusal);

    open spec fn view(&self) -> (OrderIntent, Refusal) {
        (self.intent, self.reason@)
    }
}

/// Refused orders as plain values.
pub open spec fn refusals(orders: Seq<RefusedOrder>) -> Seq<(OrderIntent, Refusal)> {
    orders.map_values(|o: RefusedOrder| o@)
}

/// Drives the pipeline over replayed events.
pub struct Backtest {
    book: ConsolidatedBook,
    risk: RiskGate,
    strategy: StrategyCore,
    calibrator: Calibrator,
    fee_model: FeeModel,
    weather_sources: Vec<WeatherEnsembleSource>,
    alpha_sources: Vec<Box<dyn AlphaSource>>,
    aggregator_config: AggregatorConfig,
    estimates: TextMap<Vec<SourceEstimate>>,
    outstanding: TextMap<OrderIntent>,
    report: BacktestReport,
    touched: VecDeque<CanonicalContractId>,
    accepted: VecDeque<OrderIntent>,
    refused: Vec<RefusedOrder>,
    in_flight: Option<OrderIntent>,
    now: Timestamp,
}

/// What a backtest holds.
#[verifier::ext_equal]
pub struct BacktestState {
    pub book: BookState,
    pub gate: GateState,
    pub engines: Lineup,
    pub calibration: CalibrationState,
    pub fees: FeeModel,
    pub sources: Sources,
    pub config: AggregatorConfig,
    /// The last estimate of each source, by contract.
    pub estimates: Map<Seq<char>, Seq<Opinion>>,
    /// The orders that are live at the venue, by the id that the venue gave them.
    pub outstanding: Map<Seq<char>, OrderIntent>,
    pub report: ReportState,
    /// The contracts that are still to be traded for the present event.
    pub touched: Seq<CanonicalContractId>,
    /// The orders of the present contract that are still to be submitted.
    pub accepted: Seq<OrderIntent>,
    /// The orders that the risk gate refused since they were last handed out.
    pub refused: Seq<(OrderIntent, Refusal)>,
    /// The order that the venue has not answered yet.
    pub in_flight: Option<OrderIntent>,
    /// The time of the present event.
    pub now: Timestamp,
}

/// A row of estimates as plain values.
pub open spec fn opinions(row: Seq<SourceEstimate>) -> Seq<Opinion> {
    row.map_values(|s: SourceEstimate| s@)
}

impl View for Backtest {
    type V = BacktestState;

    closed spec fn view(&self) -> BacktestState {
        BacktestState {
            book: self.book@,
            gate: self.risk@,
            engines: self.strategy.lineup(),
            calibration: self.calibrator@,
            fees: self.fee_model,
            sources: Sources {
                weather: self.weather_sources@,
                others: self.alpha_sources@,
            },
            config: self.aggregator_config,
            estimates: self.estimates@.map_values(|row: Vec<SourceEstimate>| opinions(row@)),
            outstanding: self.outstanding@,
            report: self.report@,
            touched: self.touched@,
            accepted: self.accepted@,
            refused: refusals(self.refused@),
            in_flight: self.in_flight,
            now: self.now,
        }
    }
}

/// The row with `estimate` as the last word of `source`.
pub open spec fn put(row: Seq<Opinion>, source: Seq<char>, estimate: ProbabilityEstimate) -> Seq<
    Opinion,
>
    decreases row.len(),
{
    if row.len() == 0 {
        seq![Opinion { source, estimate }]
    } else if row[0].source == source {
        row.update(0, Opinion { source, estimate })
    } else {
        seq![row[0]] + put(row.drop_first(), source, estimate)
    }
}

/// The estimates for a contract.
pub open spec fn row_of(estimates: Map<Seq<char>, Seq<Opinion>>, contract: Seq<char>) -> Seq<
    Opinion,
> {
    if estimates.contains_key(contract) {
        estimates[contract]
    } else {
        Seq::empty()
    }
}

/// The estimates, and the contracts that an event is about, with what a source made of the event:
/// one that does not read its kind, or has no sound opinion, changes neither.
pub open spec fn noted(
    c: &Arithmetic,
    so_far: (Map<Seq<char>, Seq<Opinion>>, Seq<CanonicalContractId>),
    name: Seq<char>,
    reads: bool,
    opinion: Option<ProbabilityEstimate>,
) -> (Map<Seq<char>, Seq<Opinion>>, Seq<CanonicalContractId>) {
    let (map, touched) = so_far;
    match opinion {
        Some(e) => if reads && e.fault(c) is None {
            (
                map.insert(e.contract@, put(row_of(map, e.contract@), name, e)),
                touched.push(e.contract),
            )
        } else {
            so_far
        },
        None => so_far,
    }
}

/// What the weather ensembles make of an event, in their order.
pub open spec fn heard_by_weather(
    c: &Arithmetic,
    sources: Seq<WeatherEnsembleSource>,
    event: RawEvent,
    so_far: (Map<Seq<char>, Seq<Opinion>>, Seq<CanonicalContractId>),
) -> (Map<Seq<char>, Seq<Opinion>>, Seq<CanonicalContractId>)
    decreases sources.len(),
{
    if sources.len() == 0 {
        so_far
    } else {
        let source = sources.last();
        noted(
            c,
            heard_by_weather(c, sources.drop_last(), event, so_far),
            source.named(),
            source.kinds().contains(event.kind),
            source.opinion(c, &event),
        )
    }
}

/// What any sources make of an event, in their order.
pub open spec fn heard_by(
    c: &Arithmetic,
    sources: Seq<Box<dyn AlphaSource>>,
    event: RawEvent,
    so_far: (Map<Seq<char>, Seq<Opinion>>, Seq<CanonicalContractId>),
) -> (Map<Seq<char>, Seq<Opinion>>, Seq<CanonicalContractId>)
    decreases sources.len(),
{
    if sources.len() == 0 {
        so_far
    } else {
        let source = sources.last();
        noted(
            c,
            heard_by(c, sources.drop_last(), event, so_far),
            source.named(),
            source.kinds().contains(event.kind),
            source.opinion(c, &event),
        )
    }
}

/// What an event changes: the estimates of the sources that read its kind and have a sound
/// opinion, and the contracts that these are about, in the order of the sources.
pub open spec fn heard(
    c: &Arithmetic,
    sources: Sources,
    event: RawEvent,
    estimates: Map<Seq<char>, Seq<Opinion>>,
) -> (Map<Seq<char>, Seq<Opinion>>, Seq<CanonicalContractId>) {
    let nothing = (estimates, Seq::<CanonicalContractId>::empty());
    heard_by(c, sources.others, event, heard_by_weather(c, sources.weather, event, nothing))
}

/// The net position in a contract, by venue.
pub open spec fn inventory(
    c: &Arithmetic,
    slots: Seq<Slot>,
    contract: CanonicalContractId,
) -> VenueMap<Double> {
    VenueMap {
        polymarket: RiskGate::exposure(c, slots, VenueId::Polymarket, contract),
        kalshi: RiskGate::exposure(c, slots, VenueId::Kalshi, contract),
        paper: RiskGate::exposure(c, slots, VenueId::Paper, contract),
    }
}

/// The label under which a refusal is counted.
pub open spec fn label(refusal: Refusal) -> Seq<char> {
    match refusal {
        Refusal::NotReconciled => "NotReconciled"@,
        Refusal::KillSwitch { .. } => "KillSwitch"@,
        Refusal::NoMarketData => "NoMarketData"@,
        Refusal::FeedStale { .. } => "FeedStale"@,
        Refusal::ClockSkew { .. } => "ClockSkew"@,
        Refusal::PriceThroughBook { .. } => "PriceThroughBook"@,
        Refusal::Invalid(_) => "Invalid"@,
        Refusal::ContractLimitExceeded { .. } => "ContractLimitExceeded"@,
        Refusal::ClusterLimitExceeded { .. } => "ClusterLimitExceeded"@,
        Refusal::VenueLimitExceeded { .. } => "VenueLimitExceeded"@,
        Refusal::GrossLimitExceeded { .. } => "GrossLimitExceeded"@,
        Refusal::NotionalPerOrderExceeded { .. } => "NotionalPerOrderExceeded"@,
        Refusal::NotionalVenueExceeded { .. } => "NotionalVenueExceeded"@,
        Refusal::NotionalTotalExceeded { .. } => "NotionalTotalExceeded"@,
    }
}

/// The label under which a refusal is counted: one for each kind, whatever its numbers.
pub fn reject_reason_label(reason: &RejectReason) -> (r: &'static str)
    ensures
        r@ == label(reason@),
{
    match reason {
        RejectReason::NotReconciled => "NotReconciled",
        RejectReason::KillSwitch { .. } => "KillSwitch",
        RejectReason::NoMarketData => "NoMarketData",
        RejectReason::FeedStale { .. } => "FeedStale",
        RejectReason::ClockSkew { .. } => "ClockSkew",
        RejectReason::PriceThroughBook { .. } => "PriceThroughBook",
        RejectReason::Invalid(_) => "Invalid",
        RejectReason::ContractLimitExceeded { .. } => "ContractLimitExceeded",
        RejectReason::ClusterLimitExceeded { .. } => "ClusterLimitExceeded",
        RejectReason::VenueLimitExceeded { .. } => "VenueLimitExceeded",
        RejectReason::GrossLimitExceeded { .. } => "GrossLimitExceeded",
        RejectReason::NotionalPerOrderExceeded { .. } => "NotionalPerOrderExceeded",
        RejectReason::NotionalVenueExceeded { .. } => "NotionalVenueExceeded",
        RejectReason::NotionalTotalExceeded { .. } => "NotionalTotalExceeded",
    }
}

/// What positions would come to at the middle of their contract's book. Flat ones and those
/// without a book count for nothing.
pub open spec fn unrealized(
    c: &Arithmetic,
    positions: Seq<(VenueId, CanonicalContractId, Position)>,
    book: BookState,
) -> Double
    decreases positions.len(),
{
    if positions.len() == 0 {
        Double::from_bits(ZERO)
    } else {
        let before = unrealized(c, positions.drop_last(), book);
        let (_, contract, held) = positions.last();
        if position::is_dust(held.qty) {
            before
        } else {
            match book.mid(c, contract@) {
                Some(mid) => c.plus(before, held.unrealized(c, mid)),
                None => before,
            }
        }
    }
}

/// The positions that are not flat: venue, contract, quantity, average price.
pub open spec fn still_open(positions: Seq<(VenueId, CanonicalContractId, Position)>) -> Seq<
    (VenueId, CanonicalContractId, Double, Double),
>
    decreases positions.len(),
{
    if positions.len() == 0 {
        Seq::empty()
    } else {
        let before = still_open(positions.drop_last());
        let (venue, contract, held) = positions.last();
        if position::is_dust(held.qty) {
            before
        } else {
            before.push((venue, contract, held.qty, held.avg_price))
        }
    }
}

impl BacktestState {
    /// Nothing held, nothing known, nothing to do, and an open gate.
    pub open spec fn start(
        limits: RiskLimits,
        fees: FeeModel,
        sources: Sources,
        engines: Lineup,
    ) -> BacktestState {
        BacktestState {
            book: BookState { contracts: Map::empty(), rejected: 0 },
            gate: GateState {
                limits,
                slots: Seq::empty(),
                live: Seq::empty(),
                clusters: Map::empty(),
                switch: SwitchState::clear(),
                reconciled: true,
                start_equity: None,
                peak_equity: Double::from_bits(ZERO),
            },
            engines,
            calibration: CalibrationState {
                alpha: Double::from_bits(DEFAULT_ALPHA),
                known: VenueMap::empty(),
            },
            fees,
            sources,
            config: AggregatorConfig::usual(),
            estimates: Map::empty(),
            outstanding: Map::empty(),
            report: ReportState::blank(),
            touched: Seq::empty(),
            accepted: Seq::empty(),
            refused: Seq::empty(),
            in_flight: None,
            now: Timestamp(0),
        }
    }

    /// Whether the last event is dealt with.
    pub open spec fn is_idle(self) -> bool {
        &&& self.touched.len() == 0
        &&& self.accepted.len() == 0
        &&& self.in_flight is None
    }

    /// Whether the state waits for what an action asks: for the next event, for the venue's answer
    /// to the order in flight, or for the fills that a quote brought.
    pub open spec fn awaits(self, action: Action) -> bool {
        match action {
            Action::Idle => self.is_idle(),
            Action::Submit(intent) => self.in_flight == Some(intent),
            Action::AdvanceMarket(_) => self.accepted.len() == 0 && self.in_flight is None,
        }
    }

    /// The fair value of a contract, where there is an opinion and it is sound.
    pub open spec fn fair_value(self, c: &Arithmetic, contract: CanonicalContractId) -> Option<
        FairView,
    > {
        if self.estimates.contains_key(contract@) {
            let all = self.estimates[contract@].map_values(|o: Opinion| o.estimate);
            let fair = aggregator::fair_view(c, contract, all, self.config, self.now);
            if aggregator::has_opinion(all, contract@) && fair.fault(c) is None {
                Some(fair)
            } else {
                None
            }
        } else {
            None
        }
    }

    /// What the engines see.
    pub open spec fn snapshot(
        self,
        c: &Arithmetic,
        contract: CanonicalContractId,
        fair: FairView,
    ) -> Snapshot {
        Snapshot {
            contract,
            fair_value: fair,
            book: self.book,
            inventory: inventory(c, self.gate.slots, contract),
            calibration: self.calibration,
            now: self.now,
        }
    }

    /// What the risk gate says to a list of proposals: the accepted ones, and the report with the
    /// refused ones counted under their labels.
    pub open spec fn sifted(
        self,
        c: &Arithmetic,
        proposals: Seq<OrderIntent>,
        counts: ReportState,
    ) -> (Seq<OrderIntent>, ReportState)
        decreases proposals.len(),
    {
        if proposals.len() == 0 {
            (Seq::empty(), counts)
        } else {
            let (accepted, before) = self.sifted(c, proposals.drop_last(), counts);
            let last = proposals.last();
            let slots = gate::after_batch(
                c,
                self.gate,
                proposals.drop_last(),
                self.book,
                self.now,
            );
            match gate::verdict(c, self.gate, slots, last, self.book, self.now) {
                None => (accepted.push(last), before),
                Some(refusal) => (accepted, before.rejecting(label(refusal))),
            }
        }
    }

    /// The proposals that the risk gate refuses, each with its reason.
    pub open spec fn turned_down(self, c: &Arithmetic, proposals: Seq<OrderIntent>) -> Seq<
        (OrderIntent, Refusal),
    >
        decreases proposals.len(),
    {
        if proposals.len() == 0 {
            Seq::empty()
        } else {
            let before = self.turned_down(c, proposals.drop_last());
            let last = proposals.last();
            let slots = gate::after_batch(
                c,
                self.gate,
                proposals.drop_last(),
                self.book,
                self.now,
            );
            match gate::verdict(c, self.gate, slots, last, self.book, self.now) {
                None => before,
                Some(refusal) => before.push((last, refusal)),
            }
        }
    }

    /// The state after the engines were asked about a contract and the risk gate about their
    /// proposals. Without a sound fair value nobody is asked.
    pub open spec fn traded(self, c: &Arithmetic, contract: CanonicalContractId) -> BacktestState {
        match self.fair_value(c, contract) {
            Some(fair) => {
                let proposals = engine::all_proposals(
                    c,
                    self.engines,
                    self.snapshot(c, contract, fair),
                );
                let counts = ReportState {
                    orders_proposed: report::raised(self.report.orders_proposed, proposals.len()),
                    ..self.report
                };
                let (accepted, after) = self.sifted(c, proposals, counts);
                BacktestState {
                    accepted,
                    refused: self.refused + self.turned_down(c, proposals),
                    report: after,
                    ..self
                }
            },
            None => self,
        }
    }

    /// The next step: submit an accepted order, its exposure reserved beforehand; or trade the
    /// next contract; or rest.
    pub open spec fn advanced(self, c: &Arithmetic) -> (BacktestState, Action)
        decreases self.touched.len(),
    {
        if self.accepted.len() > 0 {
            let intent = self.accepted[0];
            (
                BacktestState {
                    gate: gate::reserving(c, self.gate, intent),
                    accepted: self.accepted.drop_first(),
                    in_flight: Some(intent),
                    ..self
                },
                Action::Submit(intent),
            )
        } else if self.touched.len() > 0 {
            let next = BacktestState { touched: self.touched.drop_first(), ..self }.traded(
                c,
                self.touched[0],
            );
            next.advanced(c)
        } else {
            (self, Action::Idle)
        }
    }

    /// The equity: what is realized and unrealized, less fees.
    pub open spec fn equity(self, c: &Arithmetic) -> Double {
        c.plus(
            c.minus(self.report.realized_pnl, self.report.fees_paid),
            unrealized(c, RiskGate::held_positions(self.gate.slots), self.book),
        )
    }

    /// The state after a fill but for the mark: position, calibration and counts.
    pub open spec fn booked(
        self,
        c: &Arithmetic,
        intent: OrderIntent,
        qty: Double,
        price: Double,
        is_maker: bool,
    ) -> BacktestState {
        let signed = match intent.side {
            Side::Buy => qty,
            Side::Sell => qty.neg(),
        };
        let slippage = match intent.side {
            Side::Buy => c.minus(price, intent.price),
            Side::Sell => c.minus(intent.price, price),
        };
        let at_risk = match intent.side {
            Side::Buy => c.times(qty, price),
            Side::Sell => c.times(qty, c.minus(Double::from_bits(ONE), price)),
        };
        let fee = self.fees.fee_of(c, is_maker, qty, price);
        let realized = ledger::slot_of(
            self.gate.slots,
            intent.venue,
            intent.contract,
        ).held().realized_by(c, signed, price);
        BacktestState {
            gate: GateState {
                slots: RiskGate::filled(
                    c,
                    self.gate.slots,
                    intent.venue,
                    intent.contract,
                    signed,
                    price,
                    fee,
                ),
                ..self.gate
            },
            calibration: self.calibration.after(
                c,
                intent.venue,
                FillOutcome::Filled,
                Some(slippage),
            ),
            report: ReportState {
                fills: report::raised(self.report.fills, 1),
                filled_volume: c.plus(self.report.filled_volume, qty),
                gross_notional_traded: c.plus(self.report.gross_notional_traded, at_risk),
                realized_pnl: c.plus(self.report.realized_pnl, realized),
                fees_paid: c.plus(self.report.fees_paid, fee),
                ..self.report
            },
            ..self
        }
    }

    /// The state after a fill that left the halts as `switch`. A quantity that is not positive
    /// is no fill.
    pub open spec fn filled(
        self,
        c: &Arithmetic,
        intent: OrderIntent,
        qty: Double,
        price: Double,
        is_maker: bool,
        switch: SwitchState,
    ) -> BacktestState {
        if qty.le(Double::from_bits(ZERO)) {
            self
        } else {
            let after = self.booked(c, intent, qty, price, is_maker);
            BacktestState {
                gate: RiskGate::marked(after.gate, after.equity(c), switch),
                report: after.report.marking(c, after.equity(c)),
                ..after
            }
        }
    }

    /// Whether a fill may leave the halts as `switch`.
    pub open spec fn fill_halts(
        self,
        c: &Arithmetic,
        intent: OrderIntent,
        qty: Double,
        price: Double,
        is_maker: bool,
        switch: SwitchState,
    ) -> bool {
        if qty.le(Double::from_bits(ZERO)) {
            switch == self.gate.switch
        } else {
            let after = self.booked(c, intent, qty, price, is_maker);
            RiskGate::halts(c, after.gate, after.equity(c), switch)
        }
    }

    /// The state with `qty` of an order's reservation lifted.
    pub open spec fn released(
        self,
        c: &Arithmetic,
        intent: OrderIntent,
        qty: Double,
    ) -> BacktestState {
        BacktestState { gate: RiskGate::reduced(c, self.gate, intent, qty), ..self }
    }

    /// The state without an order among the live ones.
    pub open spec fn closed(self, id: Seq<char>) -> BacktestState {
        BacktestState { outstanding: self.outstanding.remove(id), ..self }
    }

    /// The state after an acknowledgement that left the halts as `switch`. One for an order that
    /// is not live changes nothing.
    pub open spec fn acked(
        self,
        c: &Arithmetic,
        ack: OrderAck,
        is_maker: bool,
        switch: SwitchState,
    ) -> BacktestState {
        let id = ack.order_id.0@;
        let all = Double::from_bits(INFINITY);
        if self.outstanding.contains_key(id) {
            let intent = self.outstanding[id];
            match ack.status {
                AckStatus::Accepted => self,
                AckStatus::Filled { qty, price } => self.filled(
                    c,
                    intent,
                    qty,
                    price,
                    is_maker,
                    switch,
                ).released(c, intent, all).closed(id),
                AckStatus::PartiallyFilled { filled_qty, price, .. } => {
                    let after = self.filled(c, intent, filled_qty, price, is_maker, switch);
                    if intent.order_type == OrderType::Limit {
                        after.released(c, intent, filled_qty)
                    } else {
                        after.released(c, intent, all).closed(id)
                    }
                },
                AckStatus::Rejected { .. } => BacktestState {
                    calibration: self.calibration.after(
                        c,
                        intent.venue,
                        FillOutcome::Unfilled,
                        None,
                    ),
                    ..self
                }.released(c, intent, all).closed(id),
                AckStatus::Canceled => self.released(c, intent, all).closed(id),
            }
        } else {
            self
        }
    }

    /// Whether an acknowledgement may leave the halts as `switch`: only a fill can add one.
    pub open spec fn ack_halts(
        self,
        c: &Arithmetic,
        ack: OrderAck,
        is_maker: bool,
        switch: SwitchState,
    ) -> bool {
        let id = ack.order_id.0@;
        if self.outstanding.contains_key(id) {
            let intent = self.outstanding[id];
            match ack.status {
                AckStatus::Filled { qty, price } => self.fill_halts(
                    c,
                    intent,
                    qty,
                    price,
                    is_maker,
                    switch,
                ),
                AckStatus::PartiallyFilled { filled_qty, price, .. } => self.fill_halts(
                    c,
                    intent,
                    filled_qty,
                    price,
                    is_maker,
                    switch,
                ),
                _ => switch == self.gate.switch,
            }
        } else {
            switch == self.gate.switch
        }
    }

    /// The state after a list of acknowledgements, in order, where `switches[i]` are the halts
    /// that the acknowledgement `i` left.
    pub open spec fn acked_all(
        self,
        c: &Arithmetic,
        acks: Seq<OrderAck>,
        is_maker: bool,
        switches: Seq<SwitchState>,
    ) -> BacktestState
        decreases acks.len(),
    {
        if acks.len() == 0 {
            self
        } else {
            self.acked_all(c, acks.drop_last(), is_maker, switches.drop_last()).acked(
                c,
                acks.last(),
                is_maker,
                switches.last(),
            )
        }
    }

    /// Whether a list of acknowledgements may leave these halts.
    pub open spec fn all_ack_halts(
        self,
        c: &Arithmetic,
        acks: Seq<OrderAck>,
        is_maker: bool,
        switches: Seq<SwitchState>,
    ) -> bool
        decreases acks.len(),
    {
        &&& switches.len() == acks.len()
        &&& acks.len() > 0 ==> {
            &&& self.all_ack_halts(c, acks.drop_last(), is_maker, switches.drop_last())
            &&& self.acked_all(c, acks.drop_last(), is_maker, switches.drop_last()).ack_halts(
                c,
                acks.last(),
                is_maker,
                switches.last(),
            )
        }
    }

    /// The state after a quote, before the venue has said what it fills.
    pub open spec fn ticked(self, tick: NormalizedTick) -> BacktestState {
        BacktestState {
            book: self.book.after_tick(tick),
            report: ReportState {
                ticks_processed: report::raised(self.report.ticks_processed, 1),
                ..self.report
            },
            touched: seq![tick.contract],
            now: tick.receive_ts,
            ..self
        }
    }

    /// The state with these estimates and these contracts to trade.
    pub open spec fn with_news(
        self,
        news: (Map<Seq<char>, Seq<Opinion>>, Seq<CanonicalContractId>),
    ) -> BacktestState {
        BacktestState { estimates: news.0, touched: news.1, ..self }
    }

    /// The state after an event from outside, before anything is traded on it.
    pub open spec fn informed(self, c: &Arithmetic, event: RawEvent) -> BacktestState {
        let (estimates, touched) = heard(c, self.sources, event, self.estimates);
        BacktestState {
            estimates,
            report: ReportState {
                alpha_events_processed: report::raised(self.report.alpha_events_processed, 1),
                ..self.report
            },
            touched,
            now: event.receive_ts,
            ..self
        }
    }

    /// The state after a submission that failed: nothing works at the venue, so the reservation
    /// comes off again.
    pub open spec fn unsubmitted(self, c: &Arithmetic, intent: OrderIntent) -> BacktestState {
        BacktestState {
            report: ReportState {
                orders_failed_submission: report::raised(
                    self.report.orders_failed_submission,
                    1,
                ),
                ..self.report
            },
            calibration: self.calibration.after(c, intent.venue, FillOutcome::Rejected, None),
            in_flight: None,
            ..self
        }.released(c, intent, Double::from_bits(INFINITY))
    }

    /// The state with an order live at the venue.
    pub open spec fn working(self, id: Seq<char>, intent: OrderIntent) -> BacktestState {
        BacktestState {
            outstanding: self.outstanding.insert(id, intent),
            in_flight: None,
            ..self
        }
    }

    /// The report at the end of a run.
    pub open spec fn final_report(self, c: &Arithmetic) -> ReportState {
        let held = RiskGate::held_positions(self.gate.slots);
        ReportState {
            unrealized_pnl: unrealized(c, held, self.book),
            open_positions: self.report.open_positions + still_open(held),
            ..self.report
        }
    }
}

fn contains_kind(kinds: &[AlphaEventKind], kind: AlphaEventKind) -> (r: bool)
    ensures
        r == kinds@.contains(kind),
{
    let mut i: usize = 0;
    while i < kinds.len()
        invariant
            i <= kinds.len(),
            forall|j: int| 0 <= j < i ==> kinds@[j] != kind,
        decreases kinds.len() - i,
    {
        if kinds[i] == kind {
            assert(kinds@[i as int] == kind);
            return true;
        }
        i += 1;
    }
    false
}

proof fn lemma_put(row: Seq<Opinion>, source: Seq<char>, estimate: ProbabilityEstimate, i: int)
    requires
        0 <= i <= row.len(),
        forall|j: int| 0 <= j < i ==> (#[trigger] row[j]).source != source,
        i < row.len() ==> row[i].source == source,
    ensures
        put(row, source, estimate) == (if i < row.len() {
            row.update(i, Opinion { source, estimate })
        } else {
            row.push(Opinion { source, estimate })
        }),
    decreases row.len(),
{
    if row.len() > 0 && i > 0 {
        let rest = row.drop_first();
        assert forall|j: int| 0 <= j < i - 1 implies (#[trigger] rest[j]).source != source by {
            assert(rest[j] == row[j + 1]);
        }
        lemma_put(rest, source, estimate, i - 1);
        assert(row[0].source != source);
    }
    assert(put(row, source, estimate) =~= if i < row.len() {
        row.update(i, Opinion { source, estimate })
    } else {
        row.push(Opinion { source, estimate })
    });
}

fn put_estimate(row: &mut Vec<SourceEstimate>, source: &str, estimate: ProbabilityEstimate)
    ensures
        opinions(final(row)@) == put(opinions(old(row)@), source@, estimate),
{
    let ghost before = opinions(row@);
    let mut i: usize = 0;
    let mut found = false;
    while i < row.len() && !found
        invariant
            i <= row.len(),
            *row == *old(row),
            before == opinions(row@),
            forall|j: int| 0 <= j < i ==> (#[trigger] before[j]).source != source@,
            found ==> i < row.len() && before[i as int].source == source@,
        decreases
                (row.len() - i) + if found {
                    0int
                } else {
                    1int
                },
    {
        if text::same_text(row[i].source.as_str(), source) {
            found = true;
        } else {
            i += 1;
        }
    }
    proof {
        lemma_put(before, source@, estimate, i as int);
    }
    let entry = SourceEstimate { source: source.to_owned(), estimate };
    if found {
        row.set(i, entry);
    } else {
        row.push(entry);
    }
    assert(opinions(row@) =~= put(before, source@, estimate));
}

impl Backtest {
    /// A backtest that holds nothing and knows nothing. Flat is the truth at its start, so the
    /// gate is open.
    pub fn new(
        risk_limits: RiskLimits,
        fee_model: FeeModel,
        alpha_sources: Vec<Box<dyn AlphaSource>>,
        engines: Vec<Box<dyn StrategyEngine>>,
    ) -> (r: Backtest)
        ensures
            r@ == BacktestState::start(
                risk_limits,
                fee_model,
                Sources { weather: Seq::empty(), others: alpha_sources@ },
                Lineup { known: Seq::empty(), others: engines@ },
            ),
    {
        Backtest::assembled(
            risk_limits,
            fee_model,
            Vec::new(),
            alpha_sources,
            StrategyCore::new(engines),
        )
    }

    /// A backtest with weather ensembles and engines of those at hand.
    pub fn of_known(
        risk_limits: RiskLimits,
        fee_model: FeeModel,
        weather_sources: Vec<WeatherEnsembleSource>,
        engines: Vec<Engine>,
    ) -> (r: Backtest)
        ensures
            r@ == BacktestState::start(
                risk_limits,
                fee_model,
                Sources { weather: weather_sources@, others: Seq::empty() },
                Lineup { known: engines@, others: Seq::empty() },
            ),
    {
        Backtest::assembled(
            risk_limits,
            fee_model,
            weather_sources,
            Vec::new(),
            StrategyCore::of_known(engines),
        )
    }

    fn assembled(
        risk_limits: RiskLimits,
        fee_model: FeeModel,
        weather_sources: Vec<WeatherEnsembleSource>,
        alpha_sources: Vec<Box<dyn AlphaSource>>,
        strategy: StrategyCore,
    ) -> (r: Backtest)
        ensures
            r@ == BacktestState::start(
                risk_limits,
                fee_model,
                Sources { weather: weather_sources@, others: alpha_sources@ },
                strategy.lineup(),
            ),
    {
        let ghost lineup = strategy.lineup();
        let r = Backtest {
            book: ConsolidatedBook::new(),
            risk: RiskGate::new_presumed_flat(risk_limits),
            strategy,
            calibrator: Calibrator::default(),
            fee_model,
            weather_sources,
            alpha_sources,
            aggregator_config: AggregatorConfig::default(),
            estimates: TextMap::new(),
            outstanding: TextMap::new(),
            report: BacktestReport::default(),
            touched: VecDeque::new(),
            accepted: VecDeque::new(),
            refused: Vec::new(),
            in_flight: None,
            now: Timestamp::from_nanos(0),
        };
        assert(r@ =~= BacktestState::start(
            risk_limits,
            fee_model,
            Sources { weather: weather_sources@, others: alpha_sources@ },
            lineup,
        ));
        r
    }

    /// Tells the risk gate which cluster a contract belongs to.
    pub fn register_contract(&mut self, contract: CanonicalContractId, cluster: ClusterKey)
        ensures
            final(self)@ == (BacktestState {
                gate: GateState {
                    clusters: old(self)@.gate.clusters.insert(contract@, cluster),
                    ..old(self)@.gate
                },
                ..old(self)@
            }),
    {
        self.risk.register_contract(contract, cluster);
    }

    /// The risk gate, to be looked at.
    pub fn risk(&self) -> (r: &RiskGate)
        ensures
            r@ == self@.gate,
    {
        &self.risk
    }

    /// The book, to be looked at.
    pub fn book(&self) -> (r: &ConsolidatedBook)
        ensures
            r@ == self@.book,
    {
        &self.book
    }

    /// Takes the next event of a recording, once the one before it is dealt with.
    pub fn on_event(&mut self, c: &Arithmetic, event: ReplayEvent) -> (r: Action)
        requires
            old(self)@.is_idle(),
        ensures
            match event {
                ReplayEvent::Tick(tick) => final(self)@ == old(self)@.ticked(tick) && r
                    == Action::AdvanceMarket(tick),
                ReplayEvent::Alpha(raw) => (final(self)@, r) == old(self)@.informed(
                    c,
                    raw,
                ).advanced(c),
            },
            final(self)@.sources == old(self)@.sources,
            final(self)@.awaits(r),
    {
        match event {
            ReplayEvent::Tick(tick) => {
                self.report.ticks_processed = self.report.ticks_processed.saturating_add(1);
                self.now = tick.receive_ts;
                self.touched.push_back(tick.contract.clone());
                self.book.update(c, tick.clone());
                assert(self@.touched =~= seq![tick.contract]);
                Action::AdvanceMarket(tick)
            },
            ReplayEvent::Alpha(raw) => {
                self.hear(c, &raw);
                self.advance(c)
            },
        }
    }

    /// Takes the fills that a quote brought to resting orders: a resting order that is hit is a
    /// maker.
    pub fn on_fills(&mut self, c: &Arithmetic, acks: Vec<OrderAck>) -> (r: Action)
        requires
            old(self)@.accepted.len() == 0,
            old(self)@.in_flight is None,
        ensures
            exists|switches: Seq<SwitchState>|
                {
                    &&& #[trigger] old(self)@.all_ack_halts(c, acks@, true, switches)
                    &&& (final(self)@, r) == old(self)@.acked_all(
                        c,
                        acks@,
                        true,
                        switches,
                    ).advanced(c)
                },
            final(self)@.sources == old(self)@.sources,
            final(self)@.awaits(r),
    {
        let ghost mut switches: Seq<SwitchState> = Seq::empty();
        let mut i: usize = 0;
        while i < acks.len()
            invariant
                i <= acks.len(),
                old(self)@.all_ack_halts(c, acks@.take(i as int), true, switches),
                self@ == old(self)@.acked_all(c, acks@.take(i as int), true, switches),
                self@.sources == old(self)@.sources,
                self@.in_flight is None,
            decreases acks.len() - i,
        {
            let ghost before = self@;
            self.apply_ack(c, &acks[i], true);
            proof {
                let after = switches.push(self@.gate.switch);
                assert(after.drop_last() =~= switches);
                assert(acks@.take(i + 1).drop_last() =~= acks@.take(i as int));
                switches = after;
            }
            i += 1;
        }
        assert(acks@.take(i as int) =~= acks@);
        self.advance(c)
    }

    /// Takes the venue's answer to the order in flight. What an answer fills at once crossed the
    /// book: it is a taker.
    pub fn on_submission(&mut self, c: &Arithmetic, answer: Result<OrderAck, ExecError>) -> (r:
        Action)
        requires
            old(self)@.in_flight is Some,
        ensures
            match answer {
                Err(_) => (final(self)@, r) == old(self)@.unsubmitted(
                    c,
                    old(self)@.in_flight->0,
                ).advanced(c),
                Ok(ack) => {
                    let placed = old(self)@.working(ack.order_id.0@, old(self)@.in_flight->0);
                    exists|switch: SwitchState|
                        {
                            &&& #[trigger] placed.ack_halts(c, ack, false, switch)
                            &&& (final(self)@, r) == placed.acked(c, ack, false, switch).advanced(c)
                        }
                },
            },
            final(self)@.sources == old(self)@.sources,
            final(self)@.awaits(r),
    {
        let mut taken: Option<OrderIntent> = None;
        std::mem::swap(&mut taken, &mut self.in_flight);
        match taken {
            Some(intent) => {
                match answer {
                    Err(_) => {
                        self.report.orders_failed_submission =
                        self.report.orders_failed_submission.saturating_add(1);
                        self.calibrator.record_outcome(
                            c,
                            intent.venue,
                            FillOutcome::Rejected,
                            None,
                        );
                        self.risk.release(c, &intent);
                        assert(self@ =~= old(self)@.unsubmitted(c, intent));
                    },
                    Ok(ack) => {
                        self.outstanding.insert(ack.order_id.0.clone(), intent);
                        assert(self@ =~= old(self)@.working(ack.order_id.0@, intent));
                        self.apply_ack(c, &ack, false);
                    },
                }
            },
            None => {},
        }
        self.advance(c)
    }

    fn hear(&mut self, c: &Arithmetic, event: &RawEvent)
        requires
            old(self)@.is_idle(),
        ensures
            final(self)@ == old(self)@.informed(c, *event),
    {
        self.report.alpha_events_processed = self.report.alpha_events_processed.saturating_add(1);
        self.now = event.receive_ts;
        let ghost start = self@;
        let ghost nothing = (start.estimates, start.touched);
        let ghost weather = self.weather_sources@;
        let ghost others = self.alpha_sources@;
        assert(nothing.1 =~= Seq::<CanonicalContractId>::empty());
        let mut i: usize = 0;
        while i < self.weather_sources.len()
            invariant
                i <= self.weather_sources.len(),
                weather == self.weather_sources@,
                others == self.alpha_sources@,
                self@ == start.with_news(
                    heard_by_weather(c, weather.take(i as int), *event, nothing),
                ),
            decreases self.weather_sources.len() - i,
        {
            assert(weather.take(i + 1).drop_last() =~= weather.take(i as int));
            assert(weather.take(i + 1).last() == weather[i as int]);
            let reads = contains_kind(self.weather_sources[i].event_kinds(), event.kind);
            let opinion = if reads {
                self.weather_sources[i].on_event(c, event)
            } else {
                None
            };
            let name = self.weather_sources[i].name().to_owned();
            self.note(c, name.as_str(), reads, opinion);
            i += 1;
        }
        assert(weather.take(i as int) =~= weather);
        let ghost told = heard_by_weather(c, weather, *event, nothing);
        let mut j: usize = 0;
        while j < self.alpha_sources.len()
            invariant
                j <= self.alpha_sources.len(),
                weather == self.weather_sources@,
                others == self.alpha_sources@,
                self@ == start.with_news(heard_by(c, others.take(j as int), *event, told)),
            decreases self.alpha_sources.len() - j,
        {
            assert(others.take(j + 1).drop_last() =~= others.take(j as int));
            assert(others.take(j + 1).last() == others[j as int]);
            let reads = contains_kind(self.alpha_sources[j].event_kinds(), event.kind);
            let opinion = if reads {
                self.alpha_sources[j].on_event(c, event)
            } else {
                None
            };
            let name = self.alpha_sources[j].name().to_owned();
            self.note(c, name.as_str(), reads, opinion);
            j += 1;
        }
        assert(others.take(j as int) =~= others);
    }

    fn note(
        &mut self,
        c: &Arithmetic,
        name: &str,
        reads: bool,
        opinion: Option<ProbabilityEstimate>,
    )
        ensures
            final(self)@ == old(self)@.with_news(
                noted(c, (old(self)@.estimates, old(self)@.touched), name@, reads, opinion),
            ),
            final(self).weather_sources == old(self).weather_sources,
            final(self).alpha_sources == old(self).alpha_sources,
    {
        match opinion {
            Some(estimate) => {
                if reads && estimate.validate(c).is_ok() {
                    let contract = estimate.contract.clone();
                    self.remember(name, estimate);
                    self.touched.push_back(contract);
                }
            },
            None => {},
        }
    }

    fn remember(&mut self, source: &str, estimate: ProbabilityEstimate)
        ensures
            final(self)@ == (BacktestState {
                estimates: old(self)@.estimates.insert(
                    estimate.contract@,
                    put(row_of(old(self)@.estimates, estimate.contract@), source@, estimate),
                ),
                ..old(self)@
            }),
            final(self).weather_sources == old(self).weather_sources,
            final(self).alpha_sources == old(self).alpha_sources,
    {
        let name = estimate.contract.0.clone();
        let mut row = match self.estimates.take(name.as_str()) {
            Some(row) => row,
            None => Vec::new(),
        };
        assert(opinions(row@) =~= row_of(old(self)@.estimates, estimate.contract@));
        put_estimate(&mut row, source, estimate);
        self.estimates.insert(name, row);
        assert(self@.estimates =~= old(self)@.estimates.insert(
            estimate.contract@,
            put(row_of(old(self)@.estimates, estimate.contract@), source@, estimate),
        ));
    }

    fn advance(&mut self, c: &Arithmetic) -> (r: Action)
        requires
            old(self)@.in_flight is None,
        ensures
            (final(self)@, r) == old(self)@.advanced(c),
            final(self)@.sources == old(self)@.sources,
            final(self)@.awaits(r),
    {
        proof {
            law_idle_means_done(c, self@);
        }
        while self.accepted.len() == 0 && self.touched.len() > 0
            invariant
                self@.advanced(c) == old(self)@.advanced(c),
                self@.sources == old(self)@.sources,
            decreases self.touched.len(),
        {
            let ghost before = self@;
            match self.touched.pop_front() {
                Some(contract) => {
                    assert(self@ =~= (BacktestState {
                        touched: before.touched.drop_first(),
                        ..before
                    }));
                    self.recompute(c, &contract);
                },
                None => {},
            }
        }
        let ghost ready = self@;
        match self.accepted.pop_front() {
            Some(intent) => {
                self.risk.reserve(c, &intent);
                self.in_flight = Some(intent.clone());
                assert(self@ =~= ready.advanced(c).0);
                Action::Submit(intent)
            },
            None => Action::Idle,
        }
    }

    fn recompute(&mut self, c: &Arithmetic, contract: &CanonicalContractId)
        requires
            old(self)@.accepted.len() == 0,
        ensures
            final(self)@ == old(self)@.traded(c, *contract),
    {
        let ghost start = self@;
        let mut estimates: Vec<ProbabilityEstimate> = Vec::new();
        match self.estimates.get(contract.0.as_str()) {
            Some(row) => {
                let mut i: usize = 0;
                while i < row.len()
                    invariant
                        i <= row.len(),
                        estimates@ =~= opinions(row@).map_values(
                            |o: Opinion| o.estimate,
                        ).take(i as int),
                    decreases row.len() - i,
                {
                    estimates.push(row[i].estimate.clone());
                    i += 1;
                }
                assert(estimates@ =~= start.estimates[contract@].map_values(
                    |o: Opinion| o.estimate,
                ));
            },
            None => {
                return;
            },
        }
        let fair_value = match aggregator::aggregate(
            c,
            contract,
            estimates.as_slice(),
            &self.aggregator_config,
            self.now,
        ) {
            Some(fair_value) => fair_value,
            None => return,
        };
        if fair_value.validate(c).is_err() {
            return;
        }
        let inventory = self.risk.inventory_for(c, contract);
        assert(inventory == self::inventory(c, start.gate.slots, *contract)) by {
            assert(inventory.at(VenueId::Polymarket) == inventory.polymarket);
            assert(inventory.at(VenueId::Kalshi) == inventory.kalshi);
            assert(inventory.at(VenueId::Paper) == inventory.paper);
        }
        let input = StrategyInput {
            contract,
            fair_value: &fair_value,
            book: &self.book,
            inventory: &inventory,
            calibration: &self.calibrator,
            now: self.now,
        };
        assert(input@ == start.snapshot(c, *contract, fair_value@));
        let proposals = self.strategy.evaluate_all(c, &input);
        let n: u64 = proposals.len() as u64;
        self.report.orders_proposed = self.report.orders_proposed.saturating_add(n);
        let ghost counts = self.report@;
        let mut results = self.risk.check_batch(c, proposals.as_slice(), &self.book, self.now);
        let mut i: usize = 0;
        assert(proposals@.take(0) =~= Seq::<OrderIntent>::empty());
        while i < proposals.len()
            invariant
                i <= proposals.len(),
                results.len() == proposals.len(),
                forall|j: int|
                    i <= j < results.len() ==> gate::refusal_in(#[trigger] results[j])
                        == gate::verdict(
                        c,
                        start.gate,
                        gate::after_batch(c, start.gate, proposals@.take(j), start.book, start.now),
                        proposals[j],
                        start.book,
                        start.now,
                    ),
                self@ == (BacktestState {
                    accepted: start.sifted(c, proposals@.take(i as int), counts).0,
                    refused: start.refused + start.turned_down(c, proposals@.take(i as int)),
                    report: start.sifted(c, proposals@.take(i as int), counts).1,
                    ..start
                }),
            decreases proposals.len() - i,
        {
            assert(proposals@.take(i + 1).drop_last() =~= proposals@.take(i as int));
            assert(gate::refusal_in(results[i as int]) == gate::verdict(
                c,
                start.gate,
                gate::after_batch(
                    c,
                    start.gate,
                    proposals@.take(i as int),
                    start.book,
                    start.now,
                ),
                proposals[i as int],
                start.book,
                start.now,
            ));
            let mut result: Result<(), RejectReason> = Ok(());
            std::mem::swap(&mut result, &mut results[i]);
            match result {
                Err(reason) => {
                    self.report.record_rejection(reject_reason_label(&reason));
                    let ghost before = self.refused@;
                    let refused = RefusedOrder { intent: proposals[i].clone(), reason };
                    self.refused.push(refused);
                    assert(refusals(self.refused@) =~= refusals(before).push(refused@));
                    assert(self@.refused =~= start.refused + start.turned_down(
                        c,
                        proposals@.take(i + 1),
                    ));
                },
                Ok(_) => {
                    self.accepted.push_back(proposals[i].clone());
                },
            }
            i += 1;
        }
        assert(proposals@.take(i as int) =~= proposals@);
    }

    /// Books an acknowledgement of an order that is live. A limit order's remainder stays in the
    /// book; the remainder of an immediate order does not, so all of its reservation comes off.
    pub fn apply_ack(&mut self, c: &Arithmetic, ack: &OrderAck, is_maker: bool)
        ensures
            final(self)@ == old(self)@.acked(c, *ack, is_maker, final(self)@.gate.switch),
            old(self)@.ack_halts(c, *ack, is_maker, final(self)@.gate.switch),
    {
        let id = ack.order_id.0.as_str();
        let intent = match self.outstanding.get(id) {
            Some(intent) => intent.clone(),
            None => return,
        };
        match &ack.status {
            AckStatus::Filled { qty, price } => {
                self.record_fill(c, &intent, *qty, *price, is_maker);
                self.risk.release(c, &intent);
                self.outstanding.take(id);
            },
            AckStatus::PartiallyFilled { filled_qty, price, .. } => {
                self.record_fill(c, &intent, *filled_qty, *price, is_maker);
                if RiskGate::leaves_order_working(intent.order_type, &ack.status) {
                    self.risk.reduce_reservation(c, &intent, *filled_qty);
                } else {
                    self.risk.release(c, &intent);
                    self.outstanding.take(id);
                }
            },
            AckStatus::Rejected { .. } => {
                self.calibrator.record_outcome(c, intent.venue, FillOutcome::Unfilled, None);
                self.risk.release(c, &intent);
                self.outstanding.take(id);
            },
            AckStatus::Canceled => {
                self.risk.release(c, &intent);
                self.outstanding.take(id);
            },
            AckStatus::Accepted => {},
        }
    }

    fn record_fill(
        &mut self,
        c: &Arithmetic,
        intent: &OrderIntent,
        qty: Double,
        price: Double,
        is_maker: bool,
    )
        ensures
            final(self)@ == old(self)@.filled(
                c,
                *intent,
                qty,
                price,
                is_maker,
                final(self)@.gate.switch,
            ),
            old(self)@.fill_halts(c, *intent, qty, price, is_maker, final(self)@.gate.switch),
    {
        if qty.le(Double::from_bits(ZERO)) {
            return;
        }
        let signed = match intent.side {
            Side::Buy => qty,
            Side::Sell => qty.neg(),
        };
        let fee = self.fee_model.fee(c, is_maker, qty, price);
        let realized = self.risk.record_fill(c, intent.venue, &intent.contract, signed, price, fee);
        let slippage = match intent.side {
            Side::Buy => c.minus(price, intent.price),
            Side::Sell => c.minus(intent.price, price),
        };
        self.calibrator.record_outcome(c, intent.venue, FillOutcome::Filled, Some(slippage));
        self.report.fills = self.report.fills.saturating_add(1);
        self.report.filled_volume = c.plus(self.report.filled_volume, qty);
        let at_risk = match intent.side {
            Side::Buy => c.times(qty, price),
            Side::Sell => c.times(qty, c.minus(Double::from_bits(ONE), price)),
        };
        self.report.gross_notional_traded = c.plus(self.report.gross_notional_traded, at_risk);
        self.report.realized_pnl = c.plus(self.report.realized_pnl, realized);
        self.report.fees_paid = c.plus(self.report.fees_paid, fee);
        assert(self@ =~= old(self)@.booked(c, *intent, qty, price, is_maker));
        let equity = self.current_equity(c);
        self.risk.mark_to_market(c, equity);
        self.report.record_equity(c, equity);
    }

    fn open_value(&self, c: &Arithmetic) -> (r: Double)
        ensures
            r == unrealized(c, RiskGate::held_positions(self@.gate.slots), self@.book),
    {
        let positions = self.risk.positions_snapshot();
        let mut value = Double::from_bits(ZERO);
        let mut i: usize = 0;
        while i < positions.len()
            invariant
                i <= positions.len(),
                value == unrealized(c, positions@.take(i as int), self.book@),
            decreases positions.len() - i,
        {
            assert(positions@.take(i + 1).drop_last() =~= positions@.take(i as int));
            let (_, contract, held) = &positions[i];
            if !held.is_flat() {
                match self.book.consolidated_mid(c, contract) {
                    Some(mid) => {
                        value = c.plus(value, held.unrealized_pnl(c, mid));
                    },
                    None => {},
                }
            }
            i += 1;
        }
        assert(positions@.take(i as int) =~= positions@);
        value
    }

    /// The equity: what is realized and unrealized, less fees.
    pub fn current_equity(&self, c: &Arithmetic) -> (r: Double)
        ensures
            r == self@.equity(c),
    {
        let unrealized = self.open_value(c);
        c.plus(c.minus(self.report.realized_pnl, self.report.fees_paid), unrealized)
    }

    /// Hands out the orders that the risk gate refused since the last call, in the order in which
    /// they were proposed, each with the full reason.
    pub fn take_refused(&mut self) -> (r: Vec<RefusedOrder>)
        ensures
            refusals(r@) == old(self)@.refused,
            final(self)@ == (BacktestState { refused: Seq::empty(), ..old(self)@ }),
    {
        let mut out: Vec<RefusedOrder> = Vec::new();
        std::mem::swap(&mut out, &mut self.refused);
        assert(refusals(self.refused@) =~= Seq::empty());
        out
    }

    /// Takes the report out, with what is still open and what that would come to.
    pub fn finalize_report(&mut self, c: &Arithmetic) -> (r: BacktestReport)
        ensures
            r@ == old(self)@.final_report(c),
            final(self)@ == (BacktestState { report: ReportState::blank(), ..old(self)@ }),
    {
        let unrealized = self.open_value(c);
        let positions = self.risk.positions_snapshot();
        let mut report = BacktestReport::default();
        std::mem::swap(&mut report, &mut self.report);
        report.unrealized_pnl = unrealized;
        let ghost before = report@;
        let mut i: usize = 0;
        assert(before.open_positions + still_open(positions@.take(0))
            =~= before.open_positions);
        while i < positions.len()
            invariant
                i <= positions.len(),
                report@ == (ReportState {
                    open_positions: before.open_positions + still_open(positions@.take(i as int)),
                    ..before
                }),
            decreases positions.len() - i,
        {
            assert(positions@.take(i + 1).drop_last() =~= positions@.take(i as int));
            let (venue, contract, held) = &positions[i];
            if !held.is_flat() {
                report.open_positions.push((*venue, contract.clone(), held.qty, held.avg_price));
            }
            assert(report@.open_positions =~= before.open_positions + still_open(
                positions@.take(i + 1),
            ));
            i += 1;
        }
        assert(positions@.take(i as int) =~= positions@);
        report
    }
}

/// No order gets past a gate that is shut: while everything is halted, or while the positions
/// are not reconciled, no proposal is accepted.
pub proof fn law_shut_gate_accepts_nothing(
    c: &Arithmetic,
    state: BacktestState,
    proposals: Seq<OrderIntent>,
    counts: ReportState,
)
    requires
        state.gate.switch.global is Some || !state.gate.reconciled,
    ensures
        state.sifted(c, proposals, counts).0.len() == 0,
    decreases proposals.len(),
{
    if proposals.len() > 0 {
        law_shut_gate_accepts_nothing(c, state, proposals.drop_last(), counts);
        let slots = gate::after_batch(
            c,
            state.gate,
            proposals.drop_last(),
            state.book,
            state.now,
        );
        if !state.gate.reconciled {
            gate::law_unreconciled_gate_refuses_everything(
                c,
                state.gate,
                slots,
                proposals.last(),
                state.book,
                state.now,
            );
        } else {
            gate::law_halt_refuses(
                c,
                state.gate,
                slots,
                proposals.last(),
                state.book,
                state.now,
            );
        }
    }
}

/// Every proposal is accounted for: it is accepted, or it is handed out as refused and counted,
/// while the count has not reached its end.
pub proof fn law_every_proposal_is_accounted_for(
    c: &Arithmetic,
    state: BacktestState,
    proposals: Seq<OrderIntent>,
    counts: ReportState,
)
    requires
        counts.orders_rejected_by_risk + proposals.len() <= u64::MAX,
    ensures
        ({
            let (accepted, after) = state.sifted(c, proposals, counts);
            let refused = state.turned_down(c, proposals);
            &&& accepted.len() + refused.len() == proposals.len()
            &&& after.orders_rejected_by_risk == counts.orders_rejected_by_risk + refused.len()
        }),
    decreases proposals.len(),
{
    if proposals.len() > 0 {
        law_every_proposal_is_accounted_for(c, state, proposals.drop_last(), counts);
    }
}

/// Where there is nothing left to do, nothing is left over: no contract to trade, no accepted
/// order, none in flight. Where there is an order to submit, it is the one in flight.
pub proof fn law_idle_means_done(c: &Arithmetic, state: BacktestState)
    requires
        state.in_flight is None,
    ensures
        state.advanced(c).1 matches Action::Submit(intent) ==> state.advanced(c).0.in_flight
            == Some(intent),
        state.advanced(c).1 is Idle ==> state.advanced(c).0.is_idle(),
        !(state.advanced(c).1 is AdvanceMarket),
    decreases state.touched.len(),
{
    if state.accepted.len() == 0 && state.touched.len() > 0 {
        let next = BacktestState { touched: state.touched.drop_first(), ..state }.traded(
            c,
            state.touched[0],
        );
        law_idle_means_done(c, next);
    }
}

/// Without an opinion there is no trade: a contract that no source has spoken of brings no
/// proposal and no count.
pub proof fn law_silence_is_no_opinion(
    c: &Arithmetic,
    state: BacktestState,
    contract: CanonicalContractId,
)
    requires
        !state.estimates.contains_key(contract@),
    ensures
        state.traded(c, contract) == state,
{
}

/// An acknowledgement of an order that is not live changes nothing, and one of an immediate
/// order leaves the order no longer live, however little of it was filled.
pub proof fn law_ack_of_an_immediate_order_ends_it(
    c: &Arithmetic,
    state: BacktestState,
    ack: OrderAck,
    is_maker: bool,
    switch: SwitchState,
)
    ensures
        !state.outstanding.contains_key(ack.order_id.0@) ==> state.acked(c, ack, is_maker, switch)
            == state,
        state.outstanding.contains_key(ack.order_id.0@)
            && state.outstanding[ack.order_id.0@].order_type == OrderType::ImmediateOrCancel
            && !(ack.status is Accepted) ==> !state.acked(
            c,
            ack,
            is_maker,
            switch,
        ).outstanding.contains_key(ack.order_id.0@),
{
}

} // verus!
