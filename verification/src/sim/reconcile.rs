//! Reconciliation: no trading until the risk gate holds what the venue reports.
use vstd::prelude::*;
use crate::double::Arithmetic;
use crate::risk::gate::{GateState, RiskGate};
use crate::risk::ledger;
use crate::risk::ledger::Slot;
use crate::types::contract::CanonicalContractId;
use crate::types::orders::{ClientOrderId, ExecError, OrderAck, OrderId};
use crate::types::position::Position;
use crate::types::venue::VenueId;

verus! {

/// What reconciliation found and did.
#[derive(Debug)]
pub struct ReconciliationReport {
    /// The positions that were loaded into the risk gate.
    pub positions_loaded: usize,
    /// The orders that the venue reports as open right now.
    pub open_orders: Vec<OrderId>,
    /// The journaled orders whose fate the venue confirmed: it has the order, or it never saw
    /// it.
    pub orders_resolved: usize,
    /// What the venue gave no answer for, and why. Not empty exactly where the risk gate stays
    /// shut.
    pub orders_unresolved: Vec<(ClientOrderId, String)>,
    /// Whether the risk gate is open to orders now.
    pub gate_reconciled: bool,
}

/// A question without an answer, and why there is none.
pub struct Unanswered {
    pub id: Seq<char>,
    pub why: Seq<char>,
}

/// The report as plain values.
#[verifier::ext_equal]
pub struct ReconciliationState {
    pub positions_loaded: nat,
    pub open_orders: Seq<OrderId>,
    pub orders_resolved: nat,
    pub orders_unresolved: Seq<Unanswered>,
    pub gate_reconciled: bool,
}

/// The open questions as plain values.
pub open spec fn open_questions(list: Seq<(ClientOrderId, String)>) -> Seq<Unanswered> {
    list.map_values(|q: (ClientOrderId, String)| Unanswered { id: q.0.0@, why: q.1@ })
}

impl View for ReconciliationReport {
    type V = ReconciliationState;

    open spec fn view(&self) -> ReconciliationState {
        ReconciliationState {
            positions_loaded: self.positions_loaded as nat,
            open_orders: self.open_orders@,
            orders_resolved: self.orders_resolved as nat,
            orders_unresolved: open_questions(self.orders_unresolved@),
            gate_reconciled: self.gate_reconciled,
        }
    }
}

impl ReconciliationState {
    /// The report of a reconciliation that stopped: nothing was loaded.
    pub open spec fn blocked(resolved: nat, unresolved: Seq<Unanswered>) -> ReconciliationState {
        ReconciliationState {
            positions_loaded: 0,
            open_orders: Seq::empty(),
            orders_resolved: resolved,
            orders_unresolved: unresolved,
            gate_reconciled: false,
        }
    }
}

/// What the venue is to be asked next.
#[derive(Debug)]
pub enum ReconcileRequest {
    /// Look an order up by the id that this side gave it.
    FindOrder(ClientOrderId),
    FetchPositions,
    ListOpenOrders,
    /// There is nothing left to ask.
    Done(ReconciliationReport),
}

/// A reconciliation under way. It asks for every journaled order, then for the positions, then
/// for the open orders, and touches the risk gate only when all of that is known.
#[derive(Debug)]
pub struct Reconciliation {
    journaled: Vec<ClientOrderId>,
    asked: usize,
    resolved: usize,
    unresolved: Vec<(ClientOrderId, String)>,
    positions: Option<Vec<Position>>,
}

/// A reconciliation under way, as plain values.
#[verifier::ext_equal]
pub struct Progress {
    /// The journaled orders.
    pub journaled: Seq<ClientOrderId>,
    /// How many of them the venue has been asked for.
    pub asked: nat,
    /// For how many of those it had an answer.
    pub resolved: nat,
    /// Those for which it had none.
    pub unresolved: Seq<Unanswered>,
    /// The positions, once fetched.
    pub positions: Option<Seq<Position>>,
}

impl View for Reconciliation {
    type V = Progress;

    closed spec fn view(&self) -> Progress {
        Progress {
            journaled: self.journaled@,
            asked: self.asked as nat,
            resolved: self.resolved as nat,
            unresolved: open_questions(self.unresolved@),
            positions: match self.positions {
                Some(p) => Some(p@),
                None => None,
            },
        }
    }
}

impl Progress {
    /// Nothing asked yet.
    pub open spec fn start(journaled: Seq<ClientOrderId>) -> Progress {
        Progress { journaled, asked: 0, resolved: 0, unresolved: Seq::empty(), positions: None }
    }

    /// Whether every lookup is either to come, resolved or unresolved.
    pub open spec fn adds_up(self) -> bool {
        &&& self.asked <= self.journaled.len()
        &&& self.resolved + self.unresolved.len() == self.asked
    }

    /// Whether the next answer is that of a lookup.
    pub open spec fn awaits_lookup(self) -> bool {
        self.asked < self.journaled.len()
    }

    /// Whether the next answer is the list of positions.
    pub open spec fn awaits_positions(self) -> bool {
        &&& self.asked == self.journaled.len()
        &&& self.unresolved.len() == 0
        &&& self.positions is None
    }

    /// Whether the next answer is the list of open orders.
    pub open spec fn awaits_open_orders(self) -> bool {
        &&& self.asked == self.journaled.len()
        &&& self.unresolved.len() == 0
        &&& self.positions is Some
    }

    /// The state after the answer to a lookup. That the venue never saw the order is an answer
    /// too.
    pub open spec fn after_lookup(self, answer: Result<Option<OrderAck>, ExecError>) -> Progress {
        match answer {
            Ok(_) => Progress { asked: self.asked + 1, resolved: self.resolved + 1, ..self },
            Err(e) => Progress {
                asked: self.asked + 1,
                unresolved: self.unresolved.push(
                    Unanswered { id: self.journaled[self.asked as int].0@, why: e.message() },
                ),
                ..self
            },
        }
    }

    /// Whether `r` is what follows the lookups: the next one, or the positions once every order
    /// is accounted for, or the end where one is not.
    pub open spec fn is_next(self, r: ReconcileRequest) -> bool {
        if self.asked < self.journaled.len() {
            r == ReconcileRequest::FindOrder(self.journaled[self.asked as int])
        } else if self.unresolved.len() > 0 {
            r matches ReconcileRequest::Done(report) && report@ == ReconciliationState::blocked(
                self.resolved,
                self.unresolved,
            )
        } else {
            r == ReconcileRequest::FetchPositions
        }
    }
}

/// The risk gate's slots with every sound position put in its place, in order, and how many there
/// were.
pub open spec fn adopted(c: &Arithmetic, slots: Seq<Slot>, positions: Seq<Position>) -> (
    Seq<Slot>,
    nat,
)
    decreases positions.len(),
{
    if positions.len() == 0 {
        (slots, 0)
    } else {
        let (before, n) = adopted(c, slots, positions.drop_last());
        let p = positions.last();
        if p.fault(c) is None {
            (
                ledger::with_slot(
                    before,
                    Slot {
                        position: Some(p),
                        ..ledger::slot_of(before, p.venue, p.contract)
                    },
                ),
                n + 1,
            )
        } else {
            (before, n)
        }
    }
}

/// What stands for the order in the report where the positions could not be fetched.
pub const POSITION_FETCH: &'static str = "(position fetch)";

/// What stands for the order in the report where the open orders could not be listed.
pub const OPEN_ORDER_LISTING: &'static str = "(open-order listing)";

impl Reconciliation {
    /// Begins with the orders that the journal leaves open, and says what to ask first.
    pub fn start(journaled: Vec<ClientOrderId>) -> (r: (Reconciliation, ReconcileRequest))
        ensures
            r.0@ == Progress::start(journaled@),
            r.0@.adds_up(),
            r.0@.is_next(r.1),
    {
        let this = Reconciliation {
            journaled,
            asked: 0,
            resolved: 0,
            unresolved: Vec::new(),
            positions: None,
        };
        assert(open_questions(this.unresolved@) =~= Seq::<Unanswered>::empty());
        let request = this.next_request();
        (this, request)
    }

    fn next_request(&self) -> (r: ReconcileRequest)
        requires
            self@.adds_up(),
        ensures
            self@.is_next(r),
    {
        if self.asked < self.journaled.len() {
            return ReconcileRequest::FindOrder(self.journaled[self.asked].clone());
        }
        if self.unresolved.len() > 0 {
            let mut unresolved: Vec<(ClientOrderId, String)> = Vec::new();
            let mut i: usize = 0;
            while i < self.unresolved.len()
                invariant
                    i <= self.unresolved.len(),
                    unresolved@ == self.unresolved@.take(i as int),
                decreases self.unresolved.len() - i,
            {
                unresolved.push((self.unresolved[i].0.clone(), self.unresolved[i].1.clone()));
                i += 1;
                assert(unresolved@ =~= self.unresolved@.take(i as int));
            }
            assert(unresolved@ =~= self.unresolved@);
            return ReconcileRequest::Done(Reconciliation::blocked(self.resolved, unresolved));
        }
        ReconcileRequest::FetchPositions
    }

    fn blocked(resolved: usize, unresolved: Vec<(ClientOrderId, String)>) -> (r:
        ReconciliationReport)
        ensures
            r@ == ReconciliationState::blocked(resolved as nat, open_questions(unresolved@)),
    {
        ReconciliationReport {
            positions_loaded: 0,
            open_orders: Vec::new(),
            orders_resolved: resolved,
            orders_unresolved: unresolved,
            gate_reconciled: false,
        }
    }

    fn blocked_by(&self, step: &str, error: &ExecError) -> (r: ReconciliationReport)
        ensures
            r@ == ReconciliationState::blocked(
                self@.resolved,
                seq![Unanswered { id: step@, why: error.message() }],
            ),
    {
        let mut list: Vec<(ClientOrderId, String)> = Vec::new();
        list.push((ClientOrderId(step.to_owned()), error.to_text()));
        assert(open_questions(list@) =~= seq![Unanswered { id: step@, why: error.message() }]);
        Reconciliation::blocked(self.resolved, list)
    }

    /// Takes the answer to the lookup that was asked for, and says what to ask next.
    pub fn on_lookup(&mut self, answer: Result<Option<OrderAck>, ExecError>) -> (r:
        ReconcileRequest)
        requires
            old(self)@.adds_up(),
            old(self)@.awaits_lookup(),
        ensures
            final(self)@ == old(self)@.after_lookup(answer),
            final(self)@.adds_up(),
            final(self)@.is_next(r),
    {
        assert(self.asked < self.journaled.len());
        match answer {
            Ok(_) => {
                self.resolved = self.resolved + 1;
            },
            Err(e) => {
                let ghost before = self.unresolved@;
                self.unresolved.push((self.journaled[self.asked].clone(), e.to_text()));
                assert(open_questions(self.unresolved@) =~= open_questions(before).push(
                    Unanswered {
                        id: old(self)@.journaled[old(self)@.asked as int].0@,
                        why: e.message(),
                    },
                ));
            },
        }
        self.asked = self.asked + 1;
        self.next_request()
    }

    /// Takes the venue's positions, and asks for its open orders. Without positions it ends.
    pub fn on_positions(&mut self, answer: Result<Vec<Position>, ExecError>) -> (r:
        ReconcileRequest)
        requires
            old(self)@.awaits_positions(),
        ensures
            match answer {
                Ok(positions) => {
                    &&& r == ReconcileRequest::ListOpenOrders
                    &&& final(self)@ == (Progress { positions: Some(positions@), ..old(self)@ })
                    &&& final(self)@.awaits_open_orders()
                },
                Err(e) => {
                    &&& final(self)@ == old(self)@
                    &&& r matches ReconcileRequest::Done(report)
                    &&& report@ == ReconciliationState::blocked(
                        old(self)@.resolved,
                        seq![Unanswered { id: POSITION_FETCH@, why: e.message() }],
                    )
                },
            },
    {
        match answer {
            Ok(positions) => {
                self.positions = Some(positions);
                ReconcileRequest::ListOpenOrders
            },
            Err(e) => ReconcileRequest::Done(self.blocked_by(POSITION_FETCH, &e)),
        }
    }

    /// Takes the venue's open orders. Where there is a list, every sound position goes into the
    /// gate and the risk gate opens; else the risk gate stays as it is.
    pub fn on_open_orders(
        self,
        c: &Arithmetic,
        gate: &mut RiskGate,
        answer: Result<Vec<OrderId>, ExecError>,
    ) -> (r: ReconciliationReport)
        requires
            self@.awaits_open_orders(),
        ensures
            match answer {
                Ok(open_orders) => {
                    let (slots, loaded) = adopted(c, old(gate)@.slots, self@.positions->0);
                    &&& final(gate)@ == (GateState { slots, reconciled: true, ..old(gate)@ })
                    &&& r@ == (ReconciliationState {
                        positions_loaded: loaded,
                        open_orders: open_orders@,
                        orders_resolved: self@.resolved,
                        orders_unresolved: Seq::empty(),
                        gate_reconciled: true,
                    })
                },
                Err(e) => {
                    &&& final(gate)@ == old(gate)@
                    &&& r@ == ReconciliationState::blocked(
                        self@.resolved,
                        seq![Unanswered { id: OPEN_ORDER_LISTING@, why: e.message() }],
                    )
                },
            },
    {
        let open_orders = match answer {
            Ok(open_orders) => open_orders,
            Err(e) => return self.blocked_by(OPEN_ORDER_LISTING, &e),
        };
        let ghost this = self@;
        let Reconciliation { resolved, positions, .. } = self;
        let positions = match positions {
            Some(positions) => positions,
            None => Vec::new(),
        };
        let mut positions_loaded: usize = 0;
        let mut i: usize = 0;
        while i < positions.len()
            invariant
                i <= positions.len(),
                positions_loaded <= i,
                ({
                    let (slots, loaded) = adopted(
                        c,
                        old(gate)@.slots,
                        positions@.take(i as int),
                    );
                    &&& gate@ == (GateState { slots, ..old(gate)@ })
                    &&& positions_loaded == loaded
                }),
            decreases positions.len() - i,
        {
            assert(positions@.take(i + 1).drop_last() == positions@.take(i as int));
            if gate.set_position(c, positions[i].clone()).is_ok() {
                positions_loaded += 1;
            }
            i += 1;
        }
        assert(positions@.take(i as int) == positions@);
        gate.mark_reconciled();
        let r = ReconciliationReport {
            positions_loaded,
            open_orders,
            orders_resolved: resolved,
            orders_unresolved: Vec::new(),
            gate_reconciled: true,
        };
        assert(open_questions(r.orders_unresolved@) =~= Seq::<Unanswered>::empty());
        r
    }
}

/// The venue is right: after reconciliation the risk gate holds, for a venue and a contract, the
/// last sound position that was reported for them, and what it held before where none was.
pub proof fn law_the_venue_is_right(
    c: &Arithmetic,
    slots: Seq<Slot>,
    positions: Seq<Position>,
    venue: VenueId,
    contract: CanonicalContractId,
)
    requires
        ledger::in_order(slots),
    ensures
        ledger::in_order(adopted(c, slots, positions).0),
        ledger::slot_of(adopted(c, slots, positions).0, venue, contract).position == (
        match last_report(c, positions, venue, contract@) {
            Some(p) => Some(p),
            None => ledger::slot_of(slots, venue, contract).position,
        }),
    decreases positions.len(),
{
    if positions.len() > 0 {
        law_the_venue_is_right(c, slots, positions.drop_last(), venue, contract);
        let before = adopted(c, slots, positions.drop_last()).0;
        let p = positions.last();
        if p.fault(c) is None {
            ledger::lemma_seated(before, p.venue, p.contract);
            let slot = Slot { position: Some(p), ..ledger::slot_of(before, p.venue, p.contract) };
            ledger::lemma_with_slot(before, slot);
            ledger::law_put_changes_one_slot(before, slot, venue, contract);
        }
    }
}

/// The last sound position that was reported for a venue and a contract.
pub open spec fn last_report(
    c: &Arithmetic,
    positions: Seq<Position>,
    venue: VenueId,
    contract: Seq<char>,
) -> Option<Position>
    decreases positions.len(),
{
    if positions.len() == 0 {
        None
    } else {
        let p = positions.last();
        if p.fault(c) is None && p.venue == venue && p.contract@ == contract {
            Some(p)
        } else {
            last_report(c, positions.drop_last(), venue, contract)
        }
    }
}

/// Positions are asked for only once the venue has answered for every journaled order. One order
/// without an answer ends the reconciliation with nothing loaded and the risk gate shut.
pub proof fn law_one_unanswered_order_keeps_the_risk_gate_shut(
    progress: Progress,
    request: ReconcileRequest,
)
    requires
        progress.adds_up(),
        progress.is_next(request),
    ensures
        request is FetchPositions ==> progress.unresolved.len() == 0 && progress.resolved
            == progress.journaled.len(),
        request matches ReconcileRequest::Done(report) ==> {
            &&& !report.gate_reconciled
            &&& report.positions_loaded == 0
            &&& report.orders_unresolved.len() > 0
            &&& report.orders_resolved + report.orders_unresolved.len()
                == progress.journaled.len()
        },
        request matches ReconcileRequest::FindOrder(id) ==> progress.journaled.contains(id),
{
    match request {
        ReconcileRequest::Done(report) => {
            assert(report@.orders_unresolved.len() == report.orders_unresolved@.len());
        },
        _ => {},
    }
}

/// Each lookup is counted once, as resolved where the venue answered, whether it has the order or
/// never saw it, and under the id that was asked for where it did not.
pub proof fn law_each_lookup_is_counted_once(
    progress: Progress,
    answer: Result<Option<OrderAck>, ExecError>,
)
    requires
        progress.adds_up(),
        progress.awaits_lookup(),
    ensures
        ({
            let after = progress.after_lookup(answer);
            &&& after.asked == progress.asked + 1
            &&& after.journaled == progress.journaled
            &&& after.resolved + after.unresolved.len() == after.asked
            &&& answer is Ok <==> after.resolved == progress.resolved + 1
            &&& answer is Ok <==> after.unresolved == progress.unresolved
            &&& answer is Err ==> after.unresolved.last().id
                == progress.journaled[progress.asked as int].0@
            &&& answer is Err ==> after.unresolved.drop_last() == progress.unresolved
        }),
{
    match answer {
        Ok(_) => {},
        Err(e) => {
            let q = Unanswered {
                id: progress.journaled[progress.asked as int].0@,
                why: e.message(),
            };
            assert(progress.unresolved.push(q).drop_last() =~= progress.unresolved);
            assert(progress.unresolved.push(q).len() != progress.unresolved.len());
        },
    }
}

} // verus!
