//! The report of a run.
use vstd::prelude::*;
use crate::double::{Arithmetic, Double, Style, ZERO};
use crate::text;
use crate::types::validate;
use crate::types::contract::CanonicalContractId;
use crate::types::venue::VenueId;

verus! {

/// How often one reason for a rejection came up.
#[derive(Debug, PartialEq)]
pub struct RejectionCount {
    pub reason: String,
    pub count: u64,
}

impl Clone for RejectionCount {
    fn clone(&self) -> (r: Self)
        ensures
            r == *self,
    {
        RejectionCount { reason: self.reason.clone(), count: self.count }
    }
}

/// A reason and its count, as plain values.
pub struct Tally {
    pub reason: Seq<char>,
    pub count: u64,
}

impl View for RejectionCount {
    type V = Tally;

    open spec fn view(&self) -> Tally {
        Tally { reason: self.reason@, count: self.count }
    }
}

/// What a run came to. Counts stop at `u64::MAX`.
#[derive(Debug)]
pub struct BacktestReport {
    pub ticks_processed: u64,
    pub alpha_events_processed: u64,
    pub orders_proposed: u64,
    pub orders_rejected_by_risk: u64,
    pub orders_failed_submission: u64,
    pub fills: u64,
    pub filled_volume: Double,
    /// The money that every fill put at risk: size times price for a buy, size times what is left
    /// to one for a sell.
    pub gross_notional_traded: Double,
    /// What closing and flipping fills realized.
    pub realized_pnl: Double,
    /// What open positions would come to at their contract's last consolidated mid.
    pub unrealized_pnl: Double,
    pub fees_paid: Double,
    /// Venue, contract, quantity and average price of what is still held.
    pub open_positions: Vec<(VenueId, CanonicalContractId, Double, Double)>,
    /// Equity after every fill.
    pub equity_curve: Vec<Double>,
    /// The largest fall of the equity curve from a peak.
    pub max_drawdown: Double,
    pub rejection_histogram: Vec<RejectionCount>,
    /// Whether an acknowledgement was lost: the positions are wrong from there on.
    pub bus_integrity_violated: bool,
}

/// A report as plain values.
#[verifier::ext_equal]
pub struct ReportState {
    pub ticks_processed: u64,
    pub alpha_events_processed: u64,
    pub orders_proposed: u64,
    pub orders_rejected_by_risk: u64,
    pub orders_failed_submission: u64,
    pub fills: u64,
    pub filled_volume: Double,
    pub gross_notional_traded: Double,
    pub realized_pnl: Double,
    pub unrealized_pnl: Double,
    pub fees_paid: Double,
    pub open_positions: Seq<(VenueId, CanonicalContractId, Double, Double)>,
    pub equity_curve: Seq<Double>,
    pub max_drawdown: Double,
    pub rejection_histogram: Seq<Tally>,
    pub bus_integrity_violated: bool,
}

impl View for BacktestReport {
    type V = ReportState;

    open spec fn view(&self) -> ReportState {
        ReportState {
            ticks_processed: self.ticks_processed,
            alpha_events_processed: self.alpha_events_processed,
            orders_proposed: self.orders_proposed,
            orders_rejected_by_risk: self.orders_rejected_by_risk,
            orders_failed_submission: self.orders_failed_submission,
            fills: self.fills,
            filled_volume: self.filled_volume,
            gross_notional_traded: self.gross_notional_traded,
            realized_pnl: self.realized_pnl,
            unrealized_pnl: self.unrealized_pnl,
            fees_paid: self.fees_paid,
            open_positions: self.open_positions@,
            equity_curve: self.equity_curve@,
            max_drawdown: self.max_drawdown,
            rejection_histogram: tallies(self.rejection_histogram@),
            bus_integrity_violated: self.bus_integrity_violated,
        }
    }
}

/// The counts as plain values.
pub open spec fn tallies(counts: Seq<RejectionCount>) -> Seq<Tally> {
    counts.map_values(|r: RejectionCount| r@)
}

/// A count raised by `by`, as far as it goes.
pub open spec fn raised(count: u64, by: nat) -> u64 {
    if count + by <= u64::MAX {
        (count + by) as u64
    } else {
        u64::MAX
    }
}

/// The histogram with one more of `reason`: the first entry of that reason is raised, or a new
/// entry goes to the end.
pub open spec fn tallied(histogram: Seq<Tally>, reason: Seq<char>) -> Seq<Tally>
    decreases histogram.len(),
{
    if histogram.len() == 0 {
        seq![Tally { reason, count: 1 }]
    } else if histogram[0].reason == reason {
        histogram.update(0, Tally { reason, count: raised(histogram[0].count, 1) })
    } else {
        seq![histogram[0]] + tallied(histogram.drop_first(), reason)
    }
}

/// The smallest finite number, below every equity that is one.
pub const LEAST: u64 = 0xFFEF_FFFF_FFFF_FFFF;

/// The highest point of an equity curve.
pub open spec fn peak(curve: Seq<Double>) -> Double
    decreases curve.len(),
{
    if curve.len() == 0 {
        Double::from_bits(LEAST)
    } else {
        peak(curve.drop_last()).larger(curve.last())
    }
}

impl ReportState {
    /// Nothing has happened yet.
    pub open spec fn blank() -> ReportState {
        ReportState {
            ticks_processed: 0,
            alpha_events_processed: 0,
            orders_proposed: 0,
            orders_rejected_by_risk: 0,
            orders_failed_submission: 0,
            fills: 0,
            filled_volume: Double::from_bits(ZERO),
            gross_notional_traded: Double::from_bits(ZERO),
            realized_pnl: Double::from_bits(ZERO),
            unrealized_pnl: Double::from_bits(ZERO),
            fees_paid: Double::from_bits(ZERO),
            open_positions: Seq::empty(),
            equity_curve: Seq::empty(),
            max_drawdown: Double::from_bits(ZERO),
            rejection_histogram: Seq::empty(),
            bus_integrity_violated: false,
        }
    }

    /// The report with one more rejection.
    pub open spec fn rejecting(self, reason: Seq<char>) -> ReportState {
        ReportState {
            rejection_histogram: tallied(self.rejection_histogram, reason),
            orders_rejected_by_risk: raised(self.orders_rejected_by_risk, 1),
            ..self
        }
    }

    /// The report with one more point of equity.
    pub open spec fn marking(self, c: &Arithmetic, equity: Double) -> ReportState {
        let fall = c.minus(peak(self.equity_curve).larger(equity), equity);
        ReportState {
            equity_curve: self.equity_curve.push(equity),
            max_drawdown: if fall.gt(self.max_drawdown) {
                fall
            } else {
                self.max_drawdown
            },
            ..self
        }
    }

    /// Realized and unrealized together.
    pub open spec fn gross(self, c: &Arithmetic) -> Double {
        c.plus(self.realized_pnl, self.unrealized_pnl)
    }

    /// What is left after fees.
    pub open spec fn net(self, c: &Arithmetic) -> Double {
        c.minus(self.gross(c), self.fees_paid)
    }

    /// The summary in one line. Once an acknowledgement was lost it quotes no number.
    pub open spec fn summary(self, c: &Arithmetic) -> Seq<char> {
        if self.bus_integrity_violated {
            VIOLATED@
        } else {
            text::decimal(self.fills as int) + " fills, "@ + c.text_of(
                Style::FourPlaces,
                self.gross(c),
            ) + " gross / "@ + c.text_of(Style::FourPlaces, self.net(c)) + " net PnL ("@
                + c.text_of(Style::FourPlaces, self.fees_paid) + " fees), "@ + c.text_of(
                Style::FourPlaces,
                self.max_drawdown,
            ) + " max drawdown"@
        }
    }
}

/// What is said of a run whose numbers cannot be trusted.
pub const VIOLATED: &'static str = "INTEGRITY VIOLATED: a critical bus topic dropped an order ack during this run — the position book, and therefore every P&L number below, cannot be trusted.";

impl Default for BacktestReport {
    fn default() -> (r: BacktestReport)
        ensures
            r@ == ReportState::blank(),
    {
        let zero = Double::from_bits(ZERO);
        let r = BacktestReport {
            ticks_processed: 0,
            alpha_events_processed: 0,
            orders_proposed: 0,
            orders_rejected_by_risk: 0,
            orders_failed_submission: 0,
            fills: 0,
            filled_volume: zero,
            gross_notional_traded: zero,
            realized_pnl: zero,
            unrealized_pnl: zero,
            fees_paid: zero,
            open_positions: Vec::new(),
            equity_curve: Vec::new(),
            max_drawdown: zero,
            rejection_histogram: Vec::new(),
            bus_integrity_violated: false,
        };
        assert(tallies(r.rejection_histogram@) =~= Seq::<Tally>::empty());
        r
    }
}

impl BacktestReport {
    /// Realized and unrealized together.
    pub fn gross_pnl(&self, c: &Arithmetic) -> (r: Double)
        ensures
            r == self@.gross(c),
    {
        c.plus(self.realized_pnl, self.unrealized_pnl)
    }

    /// What is left after fees.
    pub fn net_pnl(&self, c: &Arithmetic) -> (r: Double)
        ensures
            r == self@.net(c),
    {
        c.minus(self.gross_pnl(c), self.fees_paid)
    }

    /// Counts a rejection under its reason.
    pub fn record_rejection(&mut self, reason: &str)
        ensures
            final(self)@ == old(self)@.rejecting(reason@),
    {
        let ghost before = tallies(self.rejection_histogram@);
        let mut i: usize = 0;
        let mut found = false;
        while i < self.rejection_histogram.len() && !found
            invariant
                i <= self.rejection_histogram.len(),
                self@ == old(self)@,
                before == tallies(self.rejection_histogram@),
                forall|j: int| 0 <= j < i ==> (#[trigger] before[j]).reason != reason@,
                found ==> i < self.rejection_histogram.len() && before[i as int].reason == reason@,
            decreases
                    (self.rejection_histogram.len() - i) + if found {
                        0int
                    } else {
                        1int
                    },
        {
            if text::same_text(self.rejection_histogram[i].reason.as_str(), reason) {
                found = true;
            } else {
                i += 1;
            }
        }
        proof {
            lemma_tallied(before, reason@, i as int);
        }
        if found {
            let entry = RejectionCount {
                reason: reason.to_owned(),
                count: self.rejection_histogram[i].count.saturating_add(1),
            };
            self.rejection_histogram.set(i, entry);
        } else {
            self.rejection_histogram.push(RejectionCount { reason: reason.to_owned(), count: 1 });
        }
        self.orders_rejected_by_risk = self.orders_rejected_by_risk.saturating_add(1);
        assert(tallies(self.rejection_histogram@) =~= tallied(before, reason@));
    }

    /// Adds a point to the equity curve, and notes the fall from the peak so far where it is
    /// the largest yet.
    pub fn record_equity(&mut self, c: &Arithmetic, equity: Double)
        ensures
            final(self)@ == old(self)@.marking(c, equity),
    {
        let mut top = Double::from_bits(LEAST);
        let mut i: usize = 0;
        while i < self.equity_curve.len()
            invariant
                i <= self.equity_curve.len(),
                *self == *old(self),
                top == peak(self.equity_curve@.take(i as int)),
            decreases self.equity_curve.len() - i,
        {
            assert(self.equity_curve@.take(i + 1).drop_last() == self.equity_curve@.take(i as int));
            top = top.larger(self.equity_curve[i]);
            i += 1;
        }
        assert(self.equity_curve@.take(i as int) == self.equity_curve@);
        let drawdown = c.minus(top.larger(equity), equity);
        if drawdown.gt(self.max_drawdown) {
            self.max_drawdown = drawdown;
        }
        self.equity_curve.push(equity);
    }

    /// The summary in one line. Once an acknowledgement was lost it quotes no number.
    pub fn headline(&self, c: &Arithmetic) -> (r: String)
        ensures
            r@ == self@.summary(c),
    {
        if self.bus_integrity_violated {
            return VIOLATED.to_owned();
        }
        let mut s = text::decimal_u64(self.fills);
        s.append(" fills, ");
        s.append(c.text(Style::FourPlaces, self.gross_pnl(c)).as_str());
        s.append(" gross / ");
        s.append(c.text(Style::FourPlaces, self.net_pnl(c)).as_str());
        s.append(" net PnL (");
        s.append(c.text(Style::FourPlaces, self.fees_paid).as_str());
        s.append(" fees), ");
        s.append(c.text(Style::FourPlaces, self.max_drawdown).as_str());
        s.append(" max drawdown");
        s
    }
}

proof fn lemma_tallied(histogram: Seq<Tally>, reason: Seq<char>, i: int)
    requires
        0 <= i <= histogram.len(),
        forall|j: int| 0 <= j < i ==> (#[trigger] histogram[j]).reason != reason,
        i < histogram.len() ==> histogram[i].reason == reason,
    ensures
        tallied(histogram, reason) == (if i < histogram.len() {
            histogram.update(i, Tally { reason, count: raised(histogram[i].count, 1) })
        } else {
            histogram.push(Tally { reason, count: 1 })
        }),
    decreases histogram.len(),
{
    if histogram.len() > 0 && i > 0 {
        let rest = histogram.drop_first();
        assert forall|j: int| 0 <= j < i - 1 implies (#[trigger] rest[j]).reason != reason by {
            assert(rest[j] == histogram[j + 1]);
        }
        lemma_tallied(rest, reason, i - 1);
        assert(histogram[0].reason != reason);
        assert(tallied(histogram, reason) =~= if i < histogram.len() {
            histogram.update(i, Tally { reason, count: raised(histogram[i].count, 1) })
        } else {
            histogram.push(Tally { reason, count: 1 })
        });
    } else {
        assert(tallied(histogram, reason) =~= if i < histogram.len() {
            histogram.update(i, Tally { reason, count: raised(histogram[i].count, 1) })
        } else {
            histogram.push(Tally { reason, count: 1 })
        });
    }
}

/// How many rejections a histogram counts under any reason.
pub open spec fn counted(histogram: Seq<Tally>) -> int
    decreases histogram.len(),
{
    if histogram.len() == 0 {
        0
    } else {
        histogram[0].count + counted(histogram.drop_first())
    }
}

/// How often a histogram counts one reason.
pub open spec fn count_of(histogram: Seq<Tally>, reason: Seq<char>) -> int
    decreases histogram.len(),
{
    if histogram.len() == 0 {
        0
    } else {
        (if histogram[0].reason == reason {
            histogram[0].count as int
        } else {
            0
        }) + count_of(histogram.drop_first(), reason)
    }
}

/// The histogram accounts for every rejection: one more of a reason raises the total and the
/// count of that reason by one, and no other, while no count has reached its end.
pub proof fn law_histogram_accounts_for_every_rejection(
    histogram: Seq<Tally>,
    reason: Seq<char>,
    other: Seq<char>,
)
    requires
        forall|i: int| 0 <= i < histogram.len() ==> (#[trigger] histogram[i]).count < u64::MAX,
    ensures
        counted(tallied(histogram, reason)) == counted(histogram) + 1,
        count_of(tallied(histogram, reason), reason) == count_of(histogram, reason) + 1,
        other != reason ==> count_of(tallied(histogram, reason), other) == count_of(
            histogram,
            other,
        ),
    decreases histogram.len(),
{
    let after = tallied(histogram, reason);
    reveal_with_fuel(counted, 2);
    reveal_with_fuel(count_of, 2);
    if histogram.len() == 0 {
        assert(after.drop_first() =~= Seq::<Tally>::empty());
    } else if histogram[0].reason == reason {
        assert(after.drop_first() =~= histogram.drop_first());
    } else {
        let rest = histogram.drop_first();
        assert forall|i: int| 0 <= i < rest.len() implies (#[trigger] rest[i]).count
            < u64::MAX by {
            assert(rest[i] == histogram[i + 1]);
        }
        law_histogram_accounts_for_every_rejection(rest, reason, other);
        assert(after.drop_first() =~= tallied(rest, reason));
        assert(after[0] == histogram[0]);
    }
}

/// The largest drawdown never shrinks.
pub proof fn law_drawdown_never_shrinks(c: &Arithmetic, report: ReportState, equity: Double)
    requires
        !report.max_drawdown.is_nan(),
    ensures
        report.marking(c, equity).max_drawdown.ge(report.max_drawdown),
{
}

/// A report that lost an acknowledgement says the same whatever its numbers are.
pub proof fn law_no_number_after_a_lost_ack(c: &Arithmetic, a: ReportState, b: ReportState)
    requires
        a.bus_integrity_violated,
        b.bus_integrity_violated,
    ensures
        a.summary(c) == b.summary(c),
{
}

/// What is left is the profit less the fees: fees never raise it, a gain that is still open counts
/// like one that was realized, and without fees and without open positions it is what was realized.
pub proof fn law_net_is_profit_less_fees(c: &Arithmetic, report: ReportState)
    requires
        c.is_ieee(),
        c.keeps_order(),
        c.rounds(),
        c.rounds_differences(),
        report.realized_pnl.is_finite(),
        report.unrealized_pnl.is_finite(),
        validate::is_non_negative(report.fees_paid),
        c.plus(report.realized_pnl, report.unrealized_pnl).is_finite(),
    ensures
        ({
            let zero = Double::from_bits(ZERO);
            let sum = c.plus(report.realized_pnl, report.unrealized_pnl);
            &&& report.net(c).le(report.gross(c))
            &&& report.unrealized_pnl.ge(zero) ==> report.realized_pnl.le(report.gross(c))
            &&& report.realized_pnl.ge(zero) ==> report.unrealized_pnl.le(report.gross(c))
            &&& report.gross(c) == sum
            &&& report.net(c) == c.minus(sum, report.fees_paid)
            &&& report.fees_paid.is_zero() ==> report.net(c).same(sum)
            &&& report.unrealized_pnl.is_zero() ==> report.gross(c).same(report.realized_pnl)
            &&& report.fees_paid.gt(sum) ==> report.net(c).lt(zero)
        }),
{
    reveal(Arithmetic::rounds_sums);
    reveal(Arithmetic::rounds_differences);
    let zero = Double::from_bits(ZERO);
    let sum = c.plus(report.realized_pnl, report.unrealized_pnl);
    assert(c.plus(report.unrealized_pnl, report.realized_pnl) == sum);
    let fees = report.fees_paid;
    if fees.is_zero() {
        assert(c.minus(sum, fees) == c.plus(sum, fees.neg()));
        assert(fees.neg().is_zero());
    }
}

/// Whether the drawdown of a report covers its curve: no point lies further below an earlier one.
pub open spec fn covers(c: &Arithmetic, report: ReportState) -> bool {
    forall|i: int, j: int|
        0 <= i < j < report.equity_curve.len() ==> c.minus(
            #[trigger] report.equity_curve[i],
            #[trigger] report.equity_curve[j],
        ).le(report.max_drawdown)
}

/// The largest drawdown covers every fall of the curve from any point to any later one, whatever
/// lies between; a blank report has none, and each mark keeps it so. A new point goes to the end of
/// the curve, and the drawdown grows only to a fall that really happened. Equities are finite.
pub proof fn law_drawdown_covers_every_fall(c: &Arithmetic, report: ReportState, equity: Double)
    requires
        c.is_ieee(),
        c.keeps_order(),
        c.rounds_differences(),
        covers(c, report),
        forall|i: int|
            0 <= i < report.equity_curve.len() ==> (#[trigger] report.equity_curve[i]).is_finite(),
        equity.is_finite(),
        report.max_drawdown.ge(Double::from_bits(ZERO)),
    ensures
        ({
            let after = report.marking(c, equity);
            &&& covers(c, after)
            &&& covers(c, ReportState::blank())
            &&& after.equity_curve == report.equity_curve.push(equity)
            &&& after.max_drawdown == report.max_drawdown || exists|i: int|
                0 <= i < report.equity_curve.len() && after.max_drawdown == c.minus(
                    #[trigger] report.equity_curve[i],
                    equity,
                )
        }),
{
    reveal(Arithmetic::rounds_differences);
    let zero = Double::from_bits(ZERO);
    let after = report.marking(c, equity);
    let curve = report.equity_curve;
    let n = curve.len();
    let top = peak(curve).larger(equity);
    let fall = c.minus(top, equity);
    assert forall|i: int, j: int| 0 <= i < j < after.equity_curve.len() implies c.minus(
        #[trigger] after.equity_curve[i],
        #[trigger] after.equity_curve[j],
    ).le(after.max_drawdown) by {
        if j < n {
            assert(after.equity_curve[i] == curve[i] && after.equity_curve[j] == curve[j]);
        } else {
            assert(after.equity_curve[i] == curve[i]);
            lemma_peak(curve, i);
            assert(curve[i].is_finite());
            assert(curve[i].le(top));
            assert(top.is_finite());
            assert(c.minus(curve[i], equity).le(fall));
        }
    }
    if fall.gt(report.max_drawdown) {
        if n == 0 {
            assert(top == equity || top.same(equity));
            assert(c.minus(equity, equity).is_zero());
        } else {
            lemma_peak(curve, 0);
            let k = lemma_peak_is_a_point(curve);
            assert(curve[k] == curve[k]);
            if top == equity {
                assert(c.minus(equity, equity).is_zero());
            }
        }
    }
}

proof fn lemma_peak(curve: Seq<Double>, i: int)
    requires
        0 <= i < curve.len(),
        forall|j: int| 0 <= j < curve.len() ==> (#[trigger] curve[j]).is_finite(),
    ensures
        curve[i].le(peak(curve)),
        peak(curve).is_finite(),
    decreases curve.len(),
{
    let rest = curve.drop_last();
    let n = curve.len() - 1;
    assert(curve.last() == curve[n]);
    assert forall|j: int| 0 <= j < rest.len() implies (#[trigger] rest[j]).is_finite() by {
        assert(rest[j] == curve[j]);
    }
    if n > 0 {
        let k = if i < n {
            i
        } else {
            0
        };
        lemma_peak(rest, k);
        assert(rest[k] == curve[k]);
    }
}

proof fn lemma_peak_is_a_point(curve: Seq<Double>) -> (k: int)
    requires
        curve.len() > 0,
        forall|j: int| 0 <= j < curve.len() ==> (#[trigger] curve[j]).is_finite(),
    ensures
        0 <= k < curve.len(),
        peak(curve) == curve[k],
    decreases curve.len(),
{
    let rest = curve.drop_last();
    let n = curve.len() - 1;
    assert(curve.last() == curve[n]);
    assert forall|j: int| 0 <= j < rest.len() implies (#[trigger] rest[j]).is_finite() by {
        assert(rest[j] == curve[j]);
    }
    reveal_with_fuel(peak, 2);
    if n == 0 {
        0
    } else {
        let k = lemma_peak_is_a_point(rest);
        assert(rest[k] == curve[k]);
        if peak(rest).lt(curve[n]) {
            n
        } else {
            k
        }
    }
}

} // verus!
