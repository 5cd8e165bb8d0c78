//! The way out: cancel everything that a venue reports as open, apart from any strategy.
use vstd::prelude::*;
use crate::types::orders::{ExecError, OrderId};

verus! {

/// What came of cancelling every open order.
#[derive(Debug)]
pub struct CancelAllReport {
    pub attempted: usize,
    pub canceled: usize,
    /// The orders that could not be cancelled, and why.
    pub failed: Vec<(OrderId, String)>,
}

/// An order that could not be cancelled, as plain values.
pub struct Failure {
    pub order: OrderId,
    pub why: Seq<char>,
}

/// The failures as plain values.
pub open spec fn failures(list: Seq<(OrderId, String)>) -> Seq<Failure> {
    list.map_values(|f: (OrderId, String)| Failure { order: f.0, why: f.1@ })
}

impl CancelAllReport {
    /// Whether every open order is gone.
    pub fn all_succeeded(&self) -> (r: bool)
        ensures
            r == (self.failed@.len() == 0),
    {
        self.failed.len() == 0
    }
}

/// A cancellation of everything under way. Every order is tried, whatever became of the ones
/// before it.
#[derive(Debug)]
pub struct CancelAll {
    open_orders: Vec<OrderId>,
    tried: usize,
    canceled: usize,
    failed: Vec<(OrderId, String)>,
}

/// A cancellation under way, as plain values.
#[verifier::ext_equal]
pub struct CancelState {
    pub open_orders: Seq<OrderId>,
    /// How many of the orders have been tried.
    pub tried: nat,
    pub canceled: nat,
    pub failed: Seq<Failure>,
}

impl View for CancelAll {
    type V = CancelState;

    closed spec fn view(&self) -> CancelState {
        CancelState {
            open_orders: self.open_orders@,
            tried: self.tried as nat,
            canceled: self.canceled as nat,
            failed: failures(self.failed@),
        }
    }
}

impl CancelState {
    /// No order tried yet.
    pub open spec fn start(open_orders: Seq<OrderId>) -> CancelState {
        CancelState { open_orders, tried: 0, canceled: 0, failed: Seq::empty() }
    }

    /// Whether every order that was tried is cancelled or listed as failed.
    pub open spec fn adds_up(self) -> bool {
        &&& self.tried <= self.open_orders.len()
        &&& self.canceled + self.failed.len() == self.tried
    }

    /// The state after the answer to the order that was tried.
    pub open spec fn after(self, answer: Result<(), ExecError>) -> CancelState {
        match answer {
            Ok(_) => CancelState { tried: self.tried + 1, canceled: self.canceled + 1, ..self },
            Err(e) => CancelState {
                tried: self.tried + 1,
                failed: self.failed.push(
                    Failure { order: self.open_orders[self.tried as int], why: e.message() },
                ),
                ..self
            },
        }
    }

    /// The state after some answers, in order.
    pub open spec fn after_all(self, answers: Seq<Result<(), ExecError>>) -> CancelState
        decreases answers.len(),
    {
        if answers.len() == 0 {
            self
        } else {
            self.after_all(answers.drop_last()).after(answers.last())
        }
    }
}

impl CancelAll {
    /// Begins with what the venue lists as open. Where the listing failed, so does this: none
    /// tried would look as if nothing had been open.
    pub fn start(listing: Result<Vec<OrderId>, ExecError>) -> (r: Result<CancelAll, ExecError>)
        ensures
            match listing {
                Ok(open_orders) => r matches Ok(this) && this@ == CancelState::start(open_orders@)
                    && this@.adds_up(),
                Err(e) => r matches Err(same) && same == e,
            },
    {
        match listing {
            Ok(open_orders) => {
                let this = CancelAll { open_orders, tried: 0, canceled: 0, failed: Vec::new() };
                assert(this@ =~= CancelState::start(open_orders@));
                Ok(this)
            },
            Err(e) => Err(e),
        }
    }

    /// The order to cancel next.
    pub fn next(&self) -> (r: Option<OrderId>)
        ensures
            r == (if self@.tried < self@.open_orders.len() {
                Some(self@.open_orders[self@.tried as int])
            } else {
                None
            }),
    {
        if self.tried < self.open_orders.len() {
            Some(self.open_orders[self.tried].clone())
        } else {
            None
        }
    }

    /// Takes the answer for the order that was to be cancelled.
    pub fn on_cancel(&mut self, answer: Result<(), ExecError>)
        requires
            old(self)@.adds_up(),
            old(self)@.tried < old(self)@.open_orders.len(),
        ensures
            final(self)@ == old(self)@.after(answer),
            final(self)@.adds_up(),
    {
        assert(self.tried < self.open_orders.len());
        match answer {
            Ok(_) => {
                self.canceled = self.canceled + 1;
            },
            Err(e) => {
                let ghost before = self.failed@;
                self.failed.push((self.open_orders[self.tried].clone(), e.to_text()));
                assert(failures(self.failed@) =~= failures(before).push(
                    Failure {
                        order: old(self)@.open_orders[old(self)@.tried as int],
                        why: e.message(),
                    },
                ));
            },
        }
        self.tried = self.tried + 1;
    }

    /// The report, once every order has been tried.
    pub fn finish(self) -> (r: CancelAllReport)
        requires
            self@.tried == self@.open_orders.len(),
        ensures
            r.attempted == self@.open_orders.len(),
            r.canceled == self@.canceled,
            failures(r.failed@) == self@.failed,
    {
        CancelAllReport {
            attempted: self.open_orders.len(),
            canceled: self.canceled,
            failed: self.failed,
        }
    }
}

/// One failure does not stop the rest: whatever the answers are, an order is tried for each of
/// them, and each is counted as cancelled or listed as failed.
pub proof fn law_a_failure_does_not_stop_the_rest(
    open_orders: Seq<OrderId>,
    answers: Seq<Result<(), ExecError>>,
)
    requires
        answers.len() <= open_orders.len(),
    ensures
        ({
            let state = CancelState::start(open_orders).after_all(answers);
            &&& state.tried == answers.len()
            &&& state.open_orders == open_orders
            &&& state.adds_up()
        }),
    decreases answers.len(),
{
    if answers.len() > 0 {
        law_a_failure_does_not_stop_the_rest(open_orders, answers.drop_last());
    }
}

} // verus!
