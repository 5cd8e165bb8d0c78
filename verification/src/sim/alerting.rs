//! Alerts on divergence: each says that a model is wrong.
use vstd::prelude::*;
use crate::book::ConsolidatedBook;
use crate::double::{Arithmetic, Double, ONE, ZERO};
use crate::rounding::{
    gap, law_exact_orders, lemma_exact_power, lemma_quotient_near, lemma_size, lemma_sum_near,
    two_to, unit,
};
use crate::sim::reconcile;
use crate::sim::reconcile::{ReconciliationReport, Unanswered};
use crate::sim::report;
use crate::sim::report::{BacktestReport, Tally};
use crate::text;
use crate::types::orders::ClientOrderId;

verus! {

#[derive(Debug, PartialEq)]
pub enum Alert {
    /// Reconciliation is not complete. The risk gate refuses every order, and somebody must know.
    ReconciliationMismatch { unresolved_orders: usize, detail: String },
    /// The book refused quotes that are not valid: the feed changed its shape.
    FeedDataRejected { rejected_ticks: u64 },
    /// The risk gate refused orders because the quotes were too old.
    FeedStaleness { count: u64 },
    /// More orders were refused than usual.
    RejectionRateAboveBaseline { rate: Double, baseline: Double },
}

/// The open questions in one line: `id: why`, with semicolons between.
pub open spec fn detail(questions: Seq<Unanswered>) -> Seq<char>
    decreases questions.len(),
{
    if questions.len() == 0 {
        Seq::empty()
    } else {
        let one = questions.last().id + ": "@ + questions.last().why;
        if questions.len() == 1 {
            one
        } else {
            detail(questions.drop_last()) + "; "@ + one
        }
    }
}

fn join_questions(list: &Vec<(ClientOrderId, String)>) -> (r: String)
    ensures
        r@ == detail(reconcile::open_questions(list@)),
{
    let mut s = "".to_owned();
    let ghost questions = reconcile::open_questions(list@);
    proof {
        reveal_strlit("");
    }
    assert(s@ =~= detail(questions.take(0)));
    let mut i: usize = 0;
    while i < list.len()
        invariant
            i <= list.len(),
            questions == reconcile::open_questions(list@),
            s@ == detail(questions.take(i as int)),
        decreases list.len() - i,
    {
        let ghost before = s@;
        if i > 0 {
            s.append("; ");
        }
        s.append(list[i].0.0.as_str());
        s.append(": ");
        s.append(list[i].1.as_str());
        assert(questions.take(i + 1).drop_last() =~= questions.take(i as int));
        assert(questions.take(i + 1).last() == questions[i as int]);
        assert(s@ =~= detail(questions.take(i + 1)));
        i += 1;
    }
    assert(questions.take(i as int) =~= questions);
    s
}

/// Raises an alert where reconciliation is not complete, with every reason.
pub fn check_reconciliation(report: &ReconciliationReport) -> (r: Option<Alert>)
    ensures
        r is None <==> report.gate_reconciled,
        r matches Some(alert) ==> (alert matches Alert::ReconciliationMismatch {
            unresolved_orders,
            detail: d,
        } && unresolved_orders == report.orders_unresolved.len() && d@ == (if unresolved_orders
            == 0 {
            "position or open-order fetch failed"@
        } else {
            detail(report@.orders_unresolved)
        })),
{
    if report.gate_reconciled {
        return None;
    }
    let detail = if report.orders_unresolved.len() == 0 {
        "position or open-order fetch failed".to_owned()
    } else {
        join_questions(&report.orders_unresolved)
    };
    Some(
        Alert::ReconciliationMismatch {
            unresolved_orders: report.orders_unresolved.len(),
            detail,
        },
    )
}

/// Raises an alert where the book has refused quotes.
pub fn check_feed_data_quality(book: &ConsolidatedBook) -> (r: Option<Alert>)
    ensures
        r == (if book@.rejected > 0 {
            Some(Alert::FeedDataRejected { rejected_ticks: book@.rejected as u64 })
        } else {
            None
        }),
{
    let rejected: u64 = book.rejected_ticks();
    if rejected > 0 {
        Some(Alert::FeedDataRejected { rejected_ticks: rejected })
    } else {
        None
    }
}

/// The reason under which stale quotes are counted.
pub const FEED_STALE: &'static str = "FeedStale";

proof fn lemma_count_push(histogram: Seq<Tally>, last: Tally, reason: Seq<char>)
    ensures
        report::count_of(histogram.push(last), reason) == report::count_of(histogram, reason) + (
        if last.reason == reason {
            last.count as int
        } else {
            0
        }),
        report::count_of(histogram, reason) >= 0,
    decreases histogram.len(),
{
    reveal_with_fuel(report::count_of, 2);
    if histogram.len() > 0 {
        lemma_count_push(histogram.drop_first(), last, reason);
        assert(histogram.push(last).drop_first() =~= histogram.drop_first().push(last));
    } else {
        assert(histogram.push(last).drop_first() =~= histogram);
    }
}

proof fn lemma_count_grows(histogram: Seq<Tally>, reason: Seq<char>, i: int)
    requires
        0 <= i <= histogram.len(),
    ensures
        report::count_of(histogram.take(i), reason) <= report::count_of(histogram, reason),
    decreases histogram.len() - i,
{
    if i < histogram.len() {
        lemma_count_push(histogram.take(i), histogram[i], reason);
        assert(histogram.take(i).push(histogram[i]) =~= histogram.take(i + 1));
        lemma_count_grows(histogram, reason, i + 1);
    } else {
        assert(histogram.take(i) =~= histogram);
    }
}

/// Raises an alert where orders were refused for stale quotes, with how many.
pub fn check_feed_staleness(report: &BacktestReport) -> (r: Option<Alert>)
    requires
        report::count_of(report@.rejection_histogram, FEED_STALE@) <= u64::MAX,
    ensures
        ({
            let count = report::count_of(report@.rejection_histogram, FEED_STALE@);
            r == (if count > 0 {
                Some(Alert::FeedStaleness { count: count as u64 })
            } else {
                None
            })
        }),
{
    let mut count: u64 = 0;
    let mut i: usize = 0;
    let ghost histogram = report@.rejection_histogram;
    assert(histogram.take(0) =~= Seq::<Tally>::empty());
    while i < report.rejection_histogram.len()
        invariant
            i <= report.rejection_histogram.len(),
            histogram == report@.rejection_histogram,
            report::count_of(histogram, FEED_STALE@) <= u64::MAX,
            count == report::count_of(histogram.take(i as int), FEED_STALE@),
        decreases report.rejection_histogram.len() - i,
    {
        proof {
            lemma_count_push(histogram.take(i as int), histogram[i as int], FEED_STALE@);
            assert(histogram.take(i as int).push(histogram[i as int]) =~= histogram.take(i + 1));
            lemma_count_grows(histogram, FEED_STALE@, i + 1);
        }
        let entry = &report.rejection_histogram[i];
        assert(histogram[i as int] == entry@);
        if text::same_text(entry.reason.as_str(), FEED_STALE) {
            count += entry.count;
        }
        i += 1;
    }
    assert(histogram.take(i as int) =~= histogram);
    if count > 0 {
        Some(Alert::FeedStaleness { count })
    } else {
        None
    }
}

/// The share of refused orders, where it lies above the baseline by more than the tolerance.
pub open spec fn excess_rate(
    c: &Arithmetic,
    rejected: u64,
    proposed: u64,
    baseline: Double,
    tolerance: Double,
) -> Option<Double> {
    let rate = c.over(c.of_count(rejected), c.of_count(proposed));
    if proposed > 0 && rate.gt(c.plus(baseline, tolerance)) {
        Some(rate)
    } else {
        None
    }
}

/// Raises an alert where the share of refused orders lies above the baseline by more than the
/// tolerance. Where nothing was proposed there is no share.
pub fn check_rejection_rate(
    c: &Arithmetic,
    report: &BacktestReport,
    baseline: Double,
    tolerance: Double,
) -> (r: Option<Alert>)
    ensures
        r == (match excess_rate(
            c,
            report.orders_rejected_by_risk,
            report.orders_proposed,
            baseline,
            tolerance,
        ) {
            Some(rate) => Some(Alert::RejectionRateAboveBaseline { rate, baseline }),
            None => None,
        }),
        ({
            let rate = c.over(
                c.of_count(report.orders_rejected_by_risk),
                c.of_count(report.orders_proposed),
            );
            r == (if report.orders_proposed > 0 && rate.gt(c.plus(baseline, tolerance)) {
                Some(Alert::RejectionRateAboveBaseline { rate, baseline })
            } else {
                None
            })
        }),
{
    if report.orders_proposed == 0 {
        return None;
    }
    let rate = c.over(
        c.of_count(report.orders_rejected_by_risk),
        c.of_count(report.orders_proposed),
    );
    if rate.gt(c.plus(baseline, tolerance)) {
        Some(Alert::RejectionRateAboveBaseline { rate, baseline })
    } else {
        None
    }
}

/// The alert is raised where the refused orders are a larger share of the proposed ones than the
/// baseline and the tolerance allow, and not where they are a smaller one, up to a rounding; and
/// the rate that it quotes is that share.
pub proof fn law_rate_is_refused_over_proposed(
    c: &Arithmetic,
    rejected: u64,
    proposed: u64,
    baseline: Double,
    tolerance: Double,
)
    requires
        c.keeps_order(),
        c.is_accurate(),
        rejected <= proposed,
        1 <= proposed <= 1_000_000,
        baseline.abs().le(Double::from_bits(ONE)),
        tolerance.abs().le(Double::from_bits(ONE)),
    ensures
        ({
            let most = baseline.exact() + tolerance.exact();
            let e = 4 * two_to(-53).exact();
            let alert = excess_rate(c, rejected, proposed, baseline, tolerance);
            &&& (most + e) * proposed < rejected * unit() ==> alert is Some
            &&& rejected * unit() < (most - e) * proposed ==> alert is None
            &&& alert matches Some(rate) ==> gap(
                rate.exact() * proposed,
                rejected * unit(),
            ) <= two_to(-53).exact() * proposed
        }),
{
    let zero = Double::from_bits(ZERO);
    let one = Double::from_bits(ONE);
    let u = unit();
    let (k, n) = (c.of_count(rejected), c.of_count(proposed));
    lemma_exact_power(-53);
    lemma_exact_power(0);
    assert(two_to(0) == one);
    assert(k.exact() == rejected * u && n.exact() == proposed * u) by {
        reveal(Arithmetic::is_accurate);
    }
    let (x, y) = (rejected as int, proposed as int);
    assert(0 <= x * u <= y * u && u <= y * u) by (nonlinear_arith)
        requires
            0 <= x <= y,
            1 <= y,
            u > 0,
    ;
    law_exact_orders(n, zero);
    law_exact_orders(zero, zero);
    let (a, b) = (k.exact(), n.exact());
    assert(gap(a * u, 0) <= u * gap(b, 0)) by (nonlinear_arith)
        requires
            0 <= a <= b,
            u > 0,
    ;
    lemma_quotient_near(c, k, n, 0);
    let rate = c.over(k, n);
    let (q, e) = (rate.exact(), two_to(-53).exact());
    assert(gap(q * y, x * u) <= e * y) by (nonlinear_arith)
        requires
            gap(q * b, a * u) <= e * gap(b, 0),
            a == x * u,
            b == y * u,
            y >= 1,
            u > 0,
    ;
    lemma_size(baseline, one);
    lemma_size(tolerance, one);
    lemma_sum_near(c, baseline, tolerance, 1);
    let limit = c.plus(baseline, tolerance);
    law_exact_orders(limit, rate);
    law_exact_orders(rate, limit);
    let (l, most) = (limit.exact(), baseline.exact() + tolerance.exact());
    if (most + 4 * e) * y < x * u {
        assert(l < q) by (nonlinear_arith)
            requires
                (most + 4 * e) * y < x * u,
                gap(q * y, x * u) <= e * y,
                gap(l, most) <= 2 * e,
                y >= 1,
                e > 0,
        ;
    }
    if x * u < (most - 4 * e) * y {
        assert(q < l) by (nonlinear_arith)
            requires
                x * u < (most - 4 * e) * y,
                gap(q * y, x * u) <= e * y,
                gap(l, most) <= 2 * e,
                y >= 1,
                e > 0,
        ;
    }
}

} // verus!
