//! What a fill, an answer of the venue and an event change in a run, and what they leave alone.
use vstd::prelude::*;
use crate::double::{Arithmetic, Double, ONE, ZERO};
use crate::risk::gate::RiskGate;
use crate::risk::kill_switch::SwitchState;
use crate::risk::ledger;
use crate::risk::ledger::Slot;
use crate::rounding::{
    gap, law_exact_orders, law_powers_are_ordered, lemma_difference_near, lemma_exact_power,
    lemma_product_near, lemma_size, lemma_sum_near, two_to, unit,
};
use crate::sim::backtest::{put, still_open, unrealized, BacktestState, Opinion};
use crate::strategy::calibration::{is_average, law_estimates_are_moving_averages, FillOutcome};
use crate::types::alpha::ProbabilityEstimate;
use crate::types::contract::CanonicalContractId;
use crate::types::orders::{AckStatus, OrderAck, OrderIntent, OrderType, Side};
use crate::types::position::{Position, DUST_EPSILON};
use crate::types::validate;
use crate::types::venue::VenueId;

verus! {

/// A fill's quantity with its sign: up for a buy, down for a sale.
pub open spec fn signed(intent: OrderIntent, qty: Double) -> Double {
    if intent.side == Side::Buy {
        qty
    } else {
        qty.neg()
    }
}

/// Whether a fill is an ordinary one.
pub open spec fn is_ordinary_fill(qty: Double, price: Double) -> bool {
    Double::from_bits(ZERO).lt(qty) && qty.le(two_to(20)) && validate::is_probability(price)
}

/// Every fill counts once, adds its quantity to the volume, adds what it put at risk to the
/// notional (its price for a buy, what the price leaves to one for a sale) and its fee to the fees,
/// up to roundings, and touches no other count.
pub proof fn law_fill_is_counted_for_what_it_is(
    c: &Arithmetic,
    state: BacktestState,
    intent: OrderIntent,
    qty: Double,
    price: Double,
    is_maker: bool,
    switch: SwitchState,
)
    requires
        c.is_accurate(),
        is_ordinary_fill(qty, price),
        state.report.fills < u64::MAX,
        state.report.filled_volume.abs().le(two_to(20)),
        state.report.gross_notional_traded.abs().le(two_to(20)),
        state.report.fees_paid.abs().le(two_to(20)),
        state.fees.fee_of(c, is_maker, qty, price).abs().le(two_to(20)),
    ensures
        ({
            let before = state.report;
            let after = state.filled(c, intent, qty, price, is_maker, switch).report;
            let paid = if intent.side == Side::Buy {
                price.exact()
            } else {
                unit() - price.exact()
            };
            let e = two_to(-32).exact();
            &&& after.fills == before.fills + 1
            &&& gap(after.filled_volume.exact(), before.filled_volume.exact() + qty.exact()) <= e
            &&& gap(
                (after.gross_notional_traded.exact() - before.gross_notional_traded.exact())
                    * unit(),
                qty.exact() * paid,
            ) <= 3 * (e * unit())
            &&& gap(
                after.fees_paid.exact(),
                before.fees_paid.exact() + state.fees.fee_of(c, is_maker, qty, price).exact(),
            ) <= e
            &&& after.ticks_processed == before.ticks_processed
            &&& after.alpha_events_processed == before.alpha_events_processed
            &&& after.orders_proposed == before.orders_proposed
            &&& after.orders_rejected_by_risk == before.orders_rejected_by_risk
            &&& after.orders_failed_submission == before.orders_failed_submission
            &&& after.rejection_histogram == before.rejection_histogram
            &&& after.bus_integrity_violated == before.bus_integrity_violated
        }),
{
    let zero = Double::from_bits(ZERO);
    let one = Double::from_bits(ONE);
    let u = unit();
    let e = two_to(-32).exact();
    lemma_exact_power(-53);
    lemma_exact_power(-33);
    lemma_exact_power(-32);
    lemma_exact_power(0);
    lemma_exact_power(20);
    assert(two_to(0) == one);
    law_powers_are_ordered(0, 20);
    law_exact_orders(zero, qty);
    law_exact_orders(qty, zero);
    law_exact_orders(qty, two_to(20));
    law_exact_orders(zero, price);
    law_exact_orders(price, one);
    lemma_size(state.report.filled_volume, two_to(20));
    lemma_size(state.report.gross_notional_traded, two_to(20));
    lemma_size(state.report.fees_paid, two_to(20));
    lemma_size(state.fees.fee_of(c, is_maker, qty, price), two_to(20));
    lemma_sum_near(c, state.report.filled_volume, qty, 21);
    lemma_sum_near(
        c,
        state.report.fees_paid,
        state.fees.fee_of(c, is_maker, qty, price),
        21,
    );
    lemma_difference_near(c, one, price, 0);
    let rest = c.minus(one, price);
    lemma_size(rest, one);
    let factor = if intent.side == Side::Buy {
        price
    } else {
        rest
    };
    let (q, f, most) = (qty.exact(), factor.exact(), two_to(20).exact());
    assert(gap(q * f, 0) <= most * u) by (nonlinear_arith)
        requires
            0 <= q <= most,
            -u <= f <= u,
    ;
    lemma_product_near(c, qty, factor, 20);
    let cost = c.times(qty, factor);
    lemma_size(cost, two_to(20));
    let gross = state.report.gross_notional_traded;
    lemma_sum_near(c, gross, cost, 21);
    let (a, b, t) = (c.plus(gross, cost).exact(), gross.exact(), cost.exact());
    let d = two_to(-53).exact();
    vstd::arithmetic::power2::lemma_pow2_adds(1094, 1021);
    vstd::arithmetic::power2::lemma_pow2_adds(1041, 1074);
    assert(most * d == two_to(-33).exact() * u);
    assert(gap((a - b) * u, t * u) <= e * u) by (nonlinear_arith)
        requires
            gap(a, b + t) <= e,
            u > 0,
    ;
    let paid = if intent.side == Side::Buy {
        price.exact()
    } else {
        u - price.exact()
    };
    let below_33 = two_to(-33).exact();
    assert(gap(q * f, q * paid) <= below_33 * u) by (nonlinear_arith)
        requires
            gap(f, paid) <= d,
            0 <= q <= most,
            most * d == below_33 * u,
            d > 0,
    ;
    let below_33 = two_to(-33).exact();
    assert(below_33 * u <= e * u) by (nonlinear_arith)
        requires
            below_33 <= e,
            u > 0,
    ;
}

/// A buy raises and a sale lowers the holding at the order's venue and contract by its quantity, up
/// to what is dust, and no other holding changes.
pub proof fn law_fill_moves_its_own_holding(
    c: &Arithmetic,
    state: BacktestState,
    intent: OrderIntent,
    qty: Double,
    price: Double,
    is_maker: bool,
    switch: SwitchState,
    venue: VenueId,
    contract: CanonicalContractId,
)
    requires
        c.is_accurate(),
        is_ordinary_fill(qty, price),
        ledger::in_order(state.gate.slots),
        ledger::slot_of(state.gate.slots, intent.venue, intent.contract).held().qty.abs().le(
            two_to(20),
        ),
    ensures
        ({
            let before = state.gate.slots;
            let after = state.filled(c, intent, qty, price, is_maker, switch).gate.slots;
            let was = ledger::slot_of(before, intent.venue, intent.contract).held().qty.exact();
            let is = ledger::slot_of(after, intent.venue, intent.contract).held().qty.exact();
            &&& intent.side == Side::Buy ==> gap(is, was + qty.exact()) <= 2 * two_to(-29).exact()
            &&& intent.side == Side::Sell ==> gap(is, was - qty.exact()) <= 2 * two_to(-29).exact()
            &&& !(venue == intent.venue && contract@ == intent.contract@) ==> ledger::slot_of(
                after,
                venue,
                contract,
            ) == ledger::slot_of(before, venue, contract)
        }),
{
    let zero = Double::from_bits(ZERO);
    let slots = state.gate.slots;
    let slot = ledger::slot_of(slots, intent.venue, intent.contract);
    let s = signed(intent, qty);
    lemma_own_slot(slots, intent.venue, intent.contract);
    let held = slot.held();
    let fee = state.fees.fee_of(c, is_maker, qty, price);
    let next = Slot { position: Some(held.filled(c, s, price, fee)), ..slot };
    assert(next.is_sound());
    ledger::law_put_changes_one_slot(slots, next, venue, contract);
    ledger::law_put_changes_one_slot(slots, next, intent.venue, intent.contract);
    assert(next.is_at(intent.venue, intent.contract@));
    law_exact_orders(zero, qty);
    law_exact_orders(qty, zero);
    law_exact_orders(zero, zero);
    law_exact_orders(qty, two_to(20));
    assert(s.exact() == qty.exact() || s.exact() == -qty.exact());
    lemma_size(held.qty, two_to(20));
    law_powers_are_ordered(20, 21);
    lemma_exact_power(20);
    lemma_exact_power(-32);
    lemma_exact_power(-29);
    law_powers_are_ordered(-32, -29);
    law_exact_orders(two_to(-32), two_to(-29));
    lemma_sum_near(c, held.qty, s, 21);
    let sum = c.plus(held.qty, s);
    if sum.abs().lt(Double::from_bits(DUST_EPSILON)) {
        assert(two_to(-29).bits == 0x3E20_0000_0000_0000);
        assert(sum.abs().le(two_to(-29)));
        lemma_size(sum, two_to(-29));
    }
}

proof fn lemma_own_slot(slots: Seq<Slot>, venue: VenueId, contract: CanonicalContractId)
    requires
        ledger::in_order(slots),
    ensures
        ({
            let slot = ledger::slot_of(slots, venue, contract);
            &&& slot.is_at(venue, contract@)
            &&& slot.is_sound()
        }),
{
    ledger::lemma_seated(slots, venue, contract);
    ledger::lemma_place(slots, venue, contract@);
}

/// A fill teaches how far it slipped: a buy above the order's price and a sale below it slipped by
/// the difference, and one at a better price by as much less than nothing.
pub proof fn law_fill_teaches_its_slippage(
    c: &Arithmetic,
    state: BacktestState,
    intent: OrderIntent,
    qty: Double,
    price: Double,
    is_maker: bool,
    switch: SwitchState,
)
    requires
        c.is_accurate(),
        is_ordinary_fill(qty, price),
        validate::is_probability(intent.price),
        Double::from_bits(ZERO).le(state.calibration.alpha),
        state.calibration.alpha.le(Double::from_bits(ONE)),
        state.calibration.expected(intent.venue).fill_probability.abs().le(
            Double::from_bits(ONE),
        ),
        state.calibration.expected(intent.venue).reject_rate.abs().le(Double::from_bits(ONE)),
        state.calibration.expected(intent.venue).expected_slippage.abs().le(
            Double::from_bits(ONE),
        ),
    ensures
        ({
            let before = state.calibration.expected(intent.venue);
            let after = state.filled(
                c,
                intent,
                qty,
                price,
                is_maker,
                switch,
            ).calibration.expected(intent.venue);
            let alpha = state.calibration.alpha.exact();
            let slip = if intent.side == Side::Buy {
                price.exact() - intent.price.exact()
            } else {
                intent.price.exact() - price.exact()
            };
            &&& gap(
                after.expected_slippage.exact() * unit(),
                before.expected_slippage.exact() * (unit() - alpha) + slip * alpha,
            ) <= 6 * two_to(-53).exact() * unit()
            &&& is_average(
                after.fill_probability,
                before.fill_probability,
                state.calibration.alpha,
                unit(),
            )
            &&& is_average(after.reject_rate, before.reject_rate, state.calibration.alpha, 0)
        }),
{
    let zero = Double::from_bits(ZERO);
    let one = Double::from_bits(ONE);
    let (u, e) = (unit(), two_to(-53).exact());
    lemma_exact_power(-53);
    lemma_exact_power(0);
    assert(two_to(0) == one);
    law_exact_orders(zero, qty);
    law_exact_orders(zero, price);
    law_exact_orders(price, one);
    law_exact_orders(zero, intent.price);
    law_exact_orders(intent.price, one);
    law_exact_orders(zero, state.calibration.alpha);
    law_exact_orders(state.calibration.alpha, one);
    let slip = if intent.side == Side::Buy {
        lemma_difference_near(c, price, intent.price, 0);
        c.minus(price, intent.price)
    } else {
        lemma_difference_near(c, intent.price, price, 0);
        c.minus(intent.price, price)
    };
    law_estimates_are_moving_averages(
        c,
        state.calibration,
        intent.venue,
        FillOutcome::Filled,
        Some(slip),
    );
    let (a, x) = (state.calibration.alpha.exact(), slip.exact());
    let y = if intent.side == Side::Buy {
        price.exact() - intent.price.exact()
    } else {
        intent.price.exact() - price.exact()
    };
    assert(gap(x * a, y * a) <= e * u) by (nonlinear_arith)
        requires
            gap(x, y) <= e,
            0 <= a <= u,
            e > 0,
    ;
    assert(6 * e * u == 5 * e * u + e * u) by (nonlinear_arith);
}

/// Equity is what was realized, less fees, and what is open at the middle of its market, up to
/// roundings; a fill puts it at the end of the curve and shows it to the risk gate.
pub proof fn law_equity_is_profit_less_fees(
    c: &Arithmetic,
    state: BacktestState,
    intent: OrderIntent,
    qty: Double,
    price: Double,
    is_maker: bool,
    switch: SwitchState,
)
    requires
        c.is_accurate(),
        Double::from_bits(ZERO).lt(qty),
        ({
            let after = state.filled(c, intent, qty, price, is_maker, switch);
            &&& after.report.realized_pnl.abs().le(two_to(20))
            &&& after.report.fees_paid.abs().le(two_to(20))
            &&& unrealized(c, RiskGate::held_positions(after.gate.slots), after.book).abs().le(
                two_to(20),
            )
        }),
    ensures
        ({
            let after = state.filled(c, intent, qty, price, is_maker, switch);
            let open = unrealized(c, RiskGate::held_positions(after.gate.slots), after.book);
            let curve = after.report.equity_curve;
            &&& curve.len() == state.report.equity_curve.len() + 1
            &&& curve.drop_last() == state.report.equity_curve
            &&& gap(
                curve.last().exact(),
                after.report.realized_pnl.exact() - after.report.fees_paid.exact() + open.exact(),
            ) <= 2 * two_to(-31).exact()
            &&& after.gate.start_equity is Some
            &&& state.gate.start_equity is None ==> after.gate.start_equity == Some(curve.last())
        }),
{
    let zero = Double::from_bits(ZERO);
    law_exact_orders(zero, qty);
    let booked = state.booked(c, intent, qty, price, is_maker);
    let after = state.filled(c, intent, qty, price, is_maker, switch);
    let open = unrealized(c, RiskGate::held_positions(after.gate.slots), after.book);
    assert(after.gate.slots == booked.gate.slots);
    let (r, f) = (booked.report.realized_pnl, booked.report.fees_paid);
    lemma_exact_power(20);
    lemma_exact_power(21);
    lemma_exact_power(-32);
    lemma_exact_power(-31);
    law_powers_are_ordered(20, 22);
    lemma_size(r, two_to(20));
    lemma_size(f, two_to(20));
    lemma_size(open, two_to(20));
    lemma_difference_near(c, r, f, 21);
    let net = c.minus(r, f);
    lemma_size(net, two_to(21));
    lemma_sum_near(c, net, open, 22);
    let e = c.plus(net, open);
    assert(after.report.equity_curve == state.report.equity_curve.push(e));
    assert(state.report.equity_curve.push(e).drop_last() =~= state.report.equity_curve);
    law_powers_are_ordered(22, 22);
}

/// What the venue answers: an acceptance changes nothing; a refusal and a cancellation end the
/// order without a fill, and only the refusal counts as an order that found nobody; a full fill
/// ends the order; and an order that is not live is no concern.
pub proof fn law_each_answer_has_its_effect(
    c: &Arithmetic,
    state: BacktestState,
    ack: OrderAck,
    is_maker: bool,
    switch: SwitchState,
)
    ensures
        ({
            let id = ack.order_id.0@;
            let after = state.acked(c, ack, is_maker, switch);
            let intent = state.outstanding[id];
            let live = state.outstanding.contains_key(id);
            &&& !live || ack.status is Accepted ==> after == state
            &&& live && (ack.status is Rejected || ack.status is Canceled) ==> {
                &&& after.report == state.report
                &&& after.book == state.book
                &&& !after.outstanding.contains_key(id)
                &&& after.outstanding == state.outstanding.remove(id)
            }
            &&& live && ack.status is Canceled ==> after.calibration == state.calibration
            &&& live && ack.status is Rejected ==> after.calibration == state.calibration.after(
                c,
                intent.venue,
                FillOutcome::Unfilled,
                None,
            )
            &&& live && ack.status is Filled ==> after.outstanding == state.outstanding.remove(id)
            &&& live && ack.status is PartiallyFilled ==> (after.outstanding.contains_key(id)
                <==> intent.order_type == OrderType::Limit)
        }),
{
}

/// The fills that an answer brings are booked with the answer's own quantity and price, and a
/// quantity that is not positive is none.
pub proof fn law_answers_fill_what_they_say(
    c: &Arithmetic,
    state: BacktestState,
    ack: OrderAck,
    is_maker: bool,
    switch: SwitchState,
)
    requires
        state.outstanding.contains_key(ack.order_id.0@),
    ensures
        ({
            let intent = state.outstanding[ack.order_id.0@];
            let after = state.acked(c, ack, is_maker, switch);
            match ack.status {
                AckStatus::Filled { qty, price } => {
                    &&& after.report == state.filled(
                        c,
                        intent,
                        qty,
                        price,
                        is_maker,
                        switch,
                    ).report
                    &&& qty.le(Double::from_bits(ZERO)) ==> after.report == state.report
                },
                AckStatus::PartiallyFilled { filled_qty, price, .. } => {
                    &&& after.report == state.filled(
                        c,
                        intent,
                        filled_qty,
                        price,
                        is_maker,
                        switch,
                    ).report
                    &&& filled_qty.le(Double::from_bits(ZERO)) ==> after.report == state.report
                },
                _ => true,
            }
        }),
{
}

/// The open positions of the final report are the holdings that are more than dust, each with its
/// venue, contract, quantity and average price.
pub proof fn law_open_positions_are_listed(
    positions: Seq<(VenueId, CanonicalContractId, Position)>,
    i: int,
)
    requires
        0 <= i < positions.len(),
    ensures
        ({
            let (venue, contract, held) = positions[i];
            let open = !held.qty.abs().lt(Double::from_bits(DUST_EPSILON));
            open ==> still_open(positions).contains((venue, contract, held.qty, held.avg_price))
        }),
        still_open(positions).len() <= positions.len(),
        forall|k: int|
            0 <= k < still_open(positions).len() ==> !(#[trigger] still_open(
                positions,
            )[k]).2.abs().lt(Double::from_bits(DUST_EPSILON)),
    decreases positions.len(),
{
    let rest = positions.drop_last();
    let before = still_open(rest);
    let all = still_open(positions);
    if rest.len() > 0 {
        law_open_positions_are_listed(
            rest,
            if i < rest.len() {
                i
            } else {
                0
            },
        );
    } else {
        assert(before.len() == 0);
    }
    let (venue, contract, held) = positions[i];
    if !held.qty.abs().lt(Double::from_bits(DUST_EPSILON)) {
        let entry = (venue, contract, held.qty, held.avg_price);
        if i < rest.len() {
            assert(rest[i] == positions[i]);
            let k = before.index_of(entry);
            assert(all[k] == before[k]);
        } else {
            assert(all[all.len() - 1] == entry);
        }
    }
    assert forall|k: int| 0 <= k < all.len() implies !(#[trigger] all[k]).2.abs().lt(
        Double::from_bits(DUST_EPSILON),
    ) by {
        if k < before.len() {
            assert(all[k] == before[k]);
        }
    }
}

/// A source's newest estimate takes the place of its last one, and every other source keeps its
/// own.
pub proof fn law_newest_estimate_stands(
    row: Seq<Opinion>,
    source: Seq<char>,
    estimate: ProbabilityEstimate,
    i: int,
)
    requires
        0 <= i < row.len(),
    ensures
        put(row, source, estimate).contains(Opinion { source, estimate }),
        row[i].source != source ==> put(row, source, estimate).len() > i && put(
            row,
            source,
            estimate,
        )[i] == row[i],
        put(row, source, estimate).len() == row.len() || put(row, source, estimate).len()
            == row.len() + 1,
        put(row, source, estimate).len() == row.len() + 1 ==> row[i].source != source,
    decreases row.len(),
{
    let after = put(row, source, estimate);
    if row[0].source == source {
        assert(after[0] == Opinion { source, estimate });
    } else {
        let rest = row.drop_first();
        let tail = put(rest, source, estimate);
        assert(after[0] == row[0]);
        assert forall|k: int| 0 <= k < tail.len() implies after[k + 1] == #[trigger] tail[k] by {}
        if rest.len() > 0 {
            law_newest_estimate_stands(
                rest,
                source,
                estimate,
                if i > 0 {
                    i - 1
                } else {
                    0
                },
            );
            let k = tail.index_of(Opinion { source, estimate });
            assert(after[k + 1] == tail[k]);
            if i > 0 {
                assert(rest[i - 1] == row[i]);
            }
        } else {
            assert(tail[0] == Opinion { source, estimate });
            assert(after[1] == tail[0]);
        }
    }
}

} // verus!
