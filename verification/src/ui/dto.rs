//! What the dashboard is sent.
use vstd::prelude::*;
use crate::book::CrossVenueArb;
use crate::double::{Arithmetic, Double};
use crate::sim::report::{BacktestReport, ReportState, Tally};
use crate::types::contract::CanonicalContractId;
use crate::types::venue::VenueId;

verus! {

/// An arbitrage, or that there is none.
#[derive(Debug)]
pub struct ArbResponse {
    pub found: bool,
    pub buy_venue: Option<String>,
    pub buy_price: Option<Double>,
    pub sell_venue: Option<String>,
    pub sell_price: Option<Double>,
    pub edge: Option<Double>,
    /// The most that can be taken: the smaller of the two sizes at the touch.
    pub executable_size: Option<Double>,
}

/// Whether an optional text is the name of a venue.
pub open spec fn names(text: Option<String>, venue: VenueId) -> bool {
    text matches Some(s) && s@ == venue.name()
}

impl ArbResponse {
    /// The response for an arbitrage, if there is one.
    pub fn from_arb(arb: Option<CrossVenueArb>) -> (r: ArbResponse)
        ensures
            r.found == (arb is Some),
            match arb {
                Some(a) => {
                    &&& names(r.buy_venue, a.buy_venue)
                    &&& names(r.sell_venue, a.sell_venue)
                    &&& r.buy_price == Some(a.buy_price)
                    &&& r.sell_price == Some(a.sell_price)
                    &&& r.edge == Some(a.edge)
                    &&& r.executable_size == Some(a.executable_size)
                },
                None => {
                    &&& r.buy_venue is None
                    &&& r.sell_venue is None
                    &&& r.buy_price is None
                    &&& r.sell_price is None
                    &&& r.edge is None
                    &&& r.executable_size is None
                },
            },
    {
        match arb {
            None => ArbResponse {
                found: false,
                buy_venue: None,
                buy_price: None,
                sell_venue: None,
                sell_price: None,
                edge: None,
                executable_size: None,
            },
            Some(arb) => ArbResponse {
                found: true,
                buy_venue: Some(arb.buy_venue.to_text()),
                buy_price: Some(arb.buy_price),
                sell_venue: Some(arb.sell_venue.to_text()),
                sell_price: Some(arb.sell_price),
                edge: Some(arb.edge),
                executable_size: Some(arb.executable_size),
            },
        }
    }
}

/// A position that is still open.
#[derive(Debug)]
pub struct PositionDto {
    pub venue: String,
    pub contract: String,
    pub qty: Double,
    pub avg_price: Double,
}

/// A reason for a rejection and how often it came up.
#[derive(Debug)]
pub struct RejectionCountDto {
    pub reason: String,
    pub count: u64,
}

/// The report of a run.
#[derive(Debug)]
pub struct BacktestResponse {
    pub ticks_processed: u64,
    pub alpha_events_processed: u64,
    pub orders_proposed: u64,
    pub orders_rejected_by_risk: u64,
    pub orders_failed_submission: u64,
    pub fills: u64,
    pub filled_volume: Double,
    pub gross_notional_traded: Double,
    pub realized_pnl: Double,
    pub unrealized_pnl: Double,
    pub gross_pnl: Double,
    pub fees_paid: Double,
    /// What is left after fees.
    pub net_pnl: Double,
    pub max_drawdown: Double,
    /// Whether the numbers above are not to be trusted.
    pub bus_integrity_violated: bool,
    pub rejection_histogram: Vec<RejectionCountDto>,
    pub open_positions: Vec<PositionDto>,
}

/// Whether a row shows a count.
pub open spec fn shows_count(row: RejectionCountDto, tally: Tally) -> bool {
    row.reason@ == tally.reason && row.count == tally.count
}

/// Whether a row shows a position.
pub open spec fn shows_position(
    row: PositionDto,
    position: (VenueId, CanonicalContractId, Double, Double),
) -> bool {
    &&& row.venue@ == position.0.name()
    &&& row.contract@ == position.1@
    &&& row.qty == position.2
    &&& row.avg_price == position.3
}

/// Whether a response shows a report: every number of it, gross and net results, and a row for
/// each reason and each position.
pub open spec fn shows(c: &Arithmetic, r: BacktestResponse, report: ReportState) -> bool {
    &&& r.ticks_processed == report.ticks_processed
    &&& r.alpha_events_processed == report.alpha_events_processed
    &&& r.orders_proposed == report.orders_proposed
    &&& r.orders_rejected_by_risk == report.orders_rejected_by_risk
    &&& r.orders_failed_submission == report.orders_failed_submission
    &&& r.fills == report.fills
    &&& r.filled_volume == report.filled_volume
    &&& r.gross_notional_traded == report.gross_notional_traded
    &&& r.realized_pnl == report.realized_pnl
    &&& r.unrealized_pnl == report.unrealized_pnl
    &&& r.gross_pnl == report.gross(c)
    &&& r.fees_paid == report.fees_paid
    &&& r.net_pnl == report.net(c)
    &&& r.max_drawdown == report.max_drawdown
    &&& r.bus_integrity_violated == report.bus_integrity_violated
    &&& r.rejection_histogram@.len() == report.rejection_histogram.len()
    &&& forall|i: int|
        0 <= i < r.rejection_histogram@.len() ==> shows_count(
            #[trigger] r.rejection_histogram@[i],
            report.rejection_histogram[i],
        )
    &&& r.open_positions@.len() == report.open_positions.len()
    &&& forall|i: int|
        0 <= i < r.open_positions@.len() ==> shows_position(
            #[trigger] r.open_positions@[i],
            report.open_positions[i],
        )
}

impl BacktestResponse {
    /// The response for a report.
    pub fn from_report(c: &Arithmetic, report: &BacktestReport) -> (r: BacktestResponse)
        ensures
            shows(c, r, report@),
    {
        let mut rejection_histogram: Vec<RejectionCountDto> = Vec::new();
        let mut i: usize = 0;
        while i < report.rejection_histogram.len()
            invariant
                i <= report.rejection_histogram.len(),
                rejection_histogram@.len() == i,
                forall|j: int|
                    0 <= j < i ==> shows_count(
                        #[trigger] rejection_histogram@[j],
                        report@.rejection_histogram[j],
                    ),
            decreases report.rejection_histogram.len() - i,
        {
            let entry = &report.rejection_histogram[i];
            rejection_histogram.push(
                RejectionCountDto { reason: entry.reason.clone(), count: entry.count },
            );
            i += 1;
        }
        let mut open_positions: Vec<PositionDto> = Vec::new();
        let mut k: usize = 0;
        while k < report.open_positions.len()
            invariant
                k <= report.open_positions.len(),
                open_positions@.len() == k,
                forall|j: int|
                    0 <= j < k ==> shows_position(
                        #[trigger] open_positions@[j],
                        report@.open_positions[j],
                    ),
            decreases report.open_positions.len() - k,
        {
            let (venue, contract, qty, avg_price) = &report.open_positions[k];
            open_positions.push(
                PositionDto {
                    venue: venue.to_text(),
                    contract: contract.0.clone(),
                    qty: *qty,
                    avg_price: *avg_price,
                },
            );
            k += 1;
        }
        BacktestResponse {
            ticks_processed: report.ticks_processed,
            alpha_events_processed: report.alpha_events_processed,
            orders_proposed: report.orders_proposed,
            orders_rejected_by_risk: report.orders_rejected_by_risk,
            orders_failed_submission: report.orders_failed_submission,
            fills: report.fills,
            filled_volume: report.filled_volume,
            gross_notional_traded: report.gross_notional_traded,
            realized_pnl: report.realized_pnl,
            unrealized_pnl: report.unrealized_pnl,
            gross_pnl: report.gross_pnl(c),
            fees_paid: report.fees_paid,
            net_pnl: report.net_pnl(c),
            max_drawdown: report.max_drawdown,
            bus_integrity_violated: report.bus_integrity_violated,
            rejection_histogram,
            open_positions,
        }
    }
}

} // verus!
