//! What a run is worth: open positions at the middle of their market, what was realized, and fees.
use vstd::prelude::*;
use crate::book::BookState;
use crate::double::{Arithmetic, Double, ONE, ZERO};
use crate::risk::exposure::{are_real, is_real, lemma_sum_covers};
use crate::risk::gate::RiskGate;
use crate::risk::ledger::Slot;
use crate::rounding::{law_powers_are_ordered, two_to};
use crate::sim::backtest::{unrealized, BacktestState};
use crate::types::position;
use crate::types::validate;

verus! {

/// A product has the sign that its factors give it.
pub proof fn lemma_product_sign(c: &Arithmetic, q: Double, d: Double)
    requires
        c.is_ieee(),
        c.keeps_order(),
        c.rounds(),
        q.is_finite(),
        d.is_finite(),
    ensures
        !c.times(q, d).is_nan(),
        Double::from_bits(ZERO).le(q) && Double::from_bits(ZERO).le(d) ==> Double::from_bits(
            ZERO,
        ).le(c.times(q, d)),
        q.le(Double::from_bits(ZERO)) && d.le(Double::from_bits(ZERO)) ==> Double::from_bits(
            ZERO,
        ).le(c.times(q, d)),
        Double::from_bits(ZERO).le(q) && d.le(Double::from_bits(ZERO)) ==> c.times(q, d).le(
            Double::from_bits(ZERO),
        ),
        q.le(Double::from_bits(ZERO)) && Double::from_bits(ZERO).le(d) ==> c.times(q, d).le(
            Double::from_bits(ZERO),
        ),
        d.abs().le(Double::from_bits(ONE)) ==> c.times(q, d).abs().le(q.abs()),
{
    reveal(Arithmetic::rounds_products);
    let zero = Double::from_bits(ZERO);
    let one = Double::from_bits(ONE);
    let (a, b) = (q.abs(), d.abs());
    let p = c.times(a, b);
    assert(zero.le(a) && zero.le(b));
    assert(zero.le(p));
    assert(c.times(b, a) == p);
    assert(d == b || d == b.neg());
    assert(q == a || q == a.neg());
    assert(c.times(a, b.neg()) == p.neg());
    assert(c.times(b, a.neg()) == c.times(b, a).neg());
    assert(c.times(a.neg(), b) == p.neg());
    assert(c.times(a.neg(), b.neg()) == c.times(a.neg(), b).neg());
    assert(c.times(a, one) == a);
    assert(b.le(one) ==> p.le(a));
}

/// Whether a slot stands to gain at the middle of its market: it holds nothing that counts, or it is
/// long of what rose or short of what fell.
pub open spec fn is_ahead(c: &Arithmetic, slot: Slot, book: BookState) -> bool {
    match (slot.position, book.mid(c, slot.contract@)) {
        (Some(p), Some(mid)) => {
            ||| position::is_dust(p.qty)
            ||| p.qty.gt(Double::from_bits(ZERO)) && p.avg_price.le(mid)
            ||| p.qty.lt(Double::from_bits(ZERO)) && mid.le(p.avg_price)
        },
        _ => true,
    }
}

/// Whether a slot stands to lose at the middle of its market.
pub open spec fn is_behind(c: &Arithmetic, slot: Slot, book: BookState) -> bool {
    match (slot.position, book.mid(c, slot.contract@)) {
        (Some(p), Some(mid)) => {
            ||| position::is_dust(p.qty)
            ||| p.qty.gt(Double::from_bits(ZERO)) && mid.le(p.avg_price)
            ||| p.qty.lt(Double::from_bits(ZERO)) && p.avg_price.le(mid)
        },
        _ => true,
    }
}

/// Whether the middle of every market that a slot is in is a price.
pub open spec fn are_priced(c: &Arithmetic, slots: Seq<Slot>, book: BookState) -> bool {
    forall|i: int|
        0 <= i < slots.len() ==> (book.mid(c, (#[trigger] slots[i]).contract@) matches Some(mid)
            ==> validate::is_probability(mid))
}

/// What a slot would bring at the middle of its market: the quantity times the distance from what
/// it cost. A flat one, and one without a market, brings nothing.
spec fn own_gain(c: &Arithmetic, slot: Slot, book: BookState) -> Option<Double> {
    match (slot.position, book.mid(c, slot.contract@)) {
        (Some(p), Some(mid)) => if position::is_dust(p.qty) {
            None
        } else {
            Some(c.times(p.qty, c.minus(mid, p.avg_price)))
        },
        _ => None,
    }
}

proof fn lemma_one_more(c: &Arithmetic, slots: Seq<Slot>, book: BookState)
    requires
        slots.len() > 0,
    ensures
        ({
            let before = unrealized(c, RiskGate::held_positions(slots.drop_last()), book);
            let after = unrealized(c, RiskGate::held_positions(slots), book);
            match own_gain(c, slots.last(), book) {
                Some(gain) => after == c.plus(before, gain),
                None => after == before,
            }
        }),
{
    let held = RiskGate::held_positions(slots.drop_last());
    if let Some(p) = slots.last().position {
        let all = held.push((slots.last().venue, slots.last().contract, p));
        assert(RiskGate::held_positions(slots) == all);
        assert(all.drop_last() =~= held);
        assert(all.last() == (slots.last().venue, slots.last().contract, p));
    }
}

proof fn lemma_gain(c: &Arithmetic, slot: Slot, book: BookState)
    requires
        c.is_ieee(),
        c.keeps_order(),
        c.rounds(),
        c.rounds_differences(),
        is_real(slot),
        book.mid(c, slot.contract@) matches Some(mid) ==> validate::is_probability(mid),
    ensures
        own_gain(c, slot, book) matches Some(gain) ==> {
            &&& !gain.is_nan()
            &&& is_ahead(c, slot, book) ==> Double::from_bits(ZERO).le(gain)
            &&& is_behind(c, slot, book) ==> gain.le(Double::from_bits(ZERO))
            &&& gain.abs().le(slot.position->0.qty.abs())
        },
{
    reveal(Arithmetic::rounds_differences);
    if let Some(gain) = own_gain(c, slot, book) {
        let zero = Double::from_bits(ZERO);
        let one = Double::from_bits(ONE);
        let p = slot.position->0;
        let mid = book.mid(c, slot.contract@)->0;
        let d = c.minus(mid, p.avg_price);
        lemma_distance(c, mid, p.avg_price);
        lemma_product_sign(c, p.qty, d);
    }
}

/// The distance of two probabilities is no more than one, and its sign tells which is larger.
pub proof fn lemma_distance(c: &Arithmetic, a: Double, b: Double)
    requires
        c.is_ieee(),
        c.keeps_order(),
        c.rounds_differences(),
        validate::is_probability(a),
        validate::is_probability(b),
    ensures
        c.minus(a, b).is_finite(),
        c.minus(a, b).abs().le(Double::from_bits(ONE)),
        b.le(a) ==> Double::from_bits(ZERO).le(c.minus(a, b)),
        a.le(b) ==> c.minus(a, b).le(Double::from_bits(ZERO)),
{
    reveal(Arithmetic::rounds_differences);
    let zero = Double::from_bits(ZERO);
    let one = Double::from_bits(ONE);
    assert(c.minus(a, b).le(a));
    assert(c.minus(a, one).le(c.minus(a, b)));
    assert(c.minus(zero, one).le(c.minus(a, one)));
    assert(c.minus(zero, one) == c.plus(zero, one.neg()));
    assert(c.plus(zero, one.neg()) == one.neg());
    if a.le(b) && b.le(a) {
        assert(a.same(b));
    }
}

proof fn lemma_total_ahead(c: &Arithmetic, slots: Seq<Slot>, book: BookState, i: int)
    requires
        c.is_ieee(),
        c.keeps_order(),
        c.rounds(),
        c.rounds_differences(),
        are_real(slots),
        are_priced(c, slots, book),
        forall|j: int| 0 <= j < slots.len() ==> is_ahead(c, #[trigger] slots[j], book),
    ensures
        ({
            let total = unrealized(c, RiskGate::held_positions(slots), book);
            &&& Double::from_bits(ZERO).le(total)
            &&& 0 <= i < slots.len() ==> (own_gain(c, slots[i], book) matches Some(gain)
                ==> gain.le(total))
        }),
    decreases slots.len(),
{
    if slots.len() > 0 {
        let rest = slots.drop_last();
        let n = slots.len() - 1;
        assert forall|j: int| 0 <= j < rest.len() implies is_real(#[trigger] rest[j]) && is_ahead(
            c,
            rest[j],
            book,
        ) && (book.mid(c, rest[j].contract@) matches Some(mid) ==> validate::is_probability(
            mid,
        )) by {
            assert(rest[j] == slots[j]);
            assert(is_real(slots[j]) && is_ahead(c, slots[j], book));
            assert(book.mid(c, slots[j].contract@) matches Some(mid) ==> validate::is_probability(
                mid,
            ));
        }
        lemma_total_ahead(c, rest, book, i);
        lemma_one_more(c, slots, book);
        assert(slots[n] == slots.last());
        assert(is_real(slots[n]) && is_ahead(c, slots[n], book));
        lemma_gain(c, slots[n], book);
        if let Some(gain) = own_gain(c, slots[n], book) {
            lemma_sum_covers(c, unrealized(c, RiskGate::held_positions(rest), book), gain);
        }
        assert(0 <= i < n ==> rest[i] == slots[i]);
    }
}

proof fn lemma_sum_of_losses(c: &Arithmetic, a: Double, b: Double)
    requires
        c.is_ieee(),
        c.keeps_order(),
        c.rounds(),
        a.le(Double::from_bits(ZERO)),
        b.le(Double::from_bits(ZERO)),
    ensures
        c.plus(a, b).le(a),
        c.plus(a, b).le(b),
        c.plus(a, b).le(Double::from_bits(ZERO)),
{
    reveal(Arithmetic::rounds_sums);
    let zero = Double::from_bits(ZERO);
    let (x, y) = (a.neg(), b.neg());
    assert(zero.le(x) && zero.le(y));
    lemma_sum_covers(c, x, y);
    assert(x.neg() == a && y.neg() == b);
    assert(c.plus(x.neg(), y.neg()).same(c.plus(x, y).neg()));
}

proof fn lemma_total_behind(c: &Arithmetic, slots: Seq<Slot>, book: BookState, i: int)
    requires
        c.is_ieee(),
        c.keeps_order(),
        c.rounds(),
        c.rounds_differences(),
        are_real(slots),
        are_priced(c, slots, book),
        forall|j: int| 0 <= j < slots.len() ==> is_behind(c, #[trigger] slots[j], book),
    ensures
        ({
            let total = unrealized(c, RiskGate::held_positions(slots), book);
            &&& total.le(Double::from_bits(ZERO))
            &&& 0 <= i < slots.len() ==> (own_gain(c, slots[i], book) matches Some(gain)
                ==> total.le(gain))
        }),
    decreases slots.len(),
{
    if slots.len() > 0 {
        let rest = slots.drop_last();
        let n = slots.len() - 1;
        assert forall|j: int| 0 <= j < rest.len() implies is_real(#[trigger] rest[j]) && is_behind(
            c,
            rest[j],
            book,
        ) && (book.mid(c, rest[j].contract@) matches Some(mid) ==> validate::is_probability(
            mid,
        )) by {
            assert(rest[j] == slots[j]);
            assert(is_real(slots[j]) && is_behind(c, slots[j], book));
            assert(book.mid(c, slots[j].contract@) matches Some(mid) ==> validate::is_probability(
                mid,
            ));
        }
        lemma_total_behind(c, rest, book, i);
        lemma_one_more(c, slots, book);
        assert(slots[n] == slots.last());
        assert(is_real(slots[n]) && is_behind(c, slots[n], book));
        lemma_gain(c, slots[n], book);
        if let Some(gain) = own_gain(c, slots[n], book) {
            lemma_sum_of_losses(c, unrealized(c, RiskGate::held_positions(rest), book), gain);
        }
        assert(0 <= i < n ==> rest[i] == slots[i]);
    }
}

/// Gains are gains: where every long stands above what it cost and every short below, the run's
/// unrealized profit is no smaller than that of any position, quantity times distance, and never
/// negative; and the equity is no lower than what was realized less fees.
pub proof fn law_open_gains_are_gains(c: &Arithmetic, state: BacktestState, i: int)
    requires
        c.is_ieee(),
        c.keeps_order(),
        c.rounds(),
        c.rounds_differences(),
        are_real(state.gate.slots),
        are_priced(c, state.gate.slots, state.book),
        forall|j: int|
            0 <= j < state.gate.slots.len() ==> is_ahead(
                c,
                #[trigger] state.gate.slots[j],
                state.book,
            ),
    ensures
        ({
            let slots = state.gate.slots;
            let open = state.final_report(c).unrealized_pnl;
            let kept = c.minus(state.report.realized_pnl, state.report.fees_paid);
            &&& Double::from_bits(ZERO).le(open)
            &&& 0 <= i < slots.len() ==> (slots[i].position matches Some(p) ==> (state.book.mid(
                c,
                slots[i].contract@,
            ) matches Some(mid) ==> !p.qty.abs().lt(
                Double::from_bits(position::DUST_EPSILON),
            ) ==> c.times(p.qty, c.minus(mid, p.avg_price)).le(open)))
            &&& kept.is_finite() ==> kept.le(state.equity(c))
        }),
{
    lemma_total_ahead(c, state.gate.slots, state.book, i);
}

/// Losses are losses: where every long stands below what it cost and every short above, the run's
/// unrealized profit is no larger than that of any position, and never positive; and the equity is
/// no higher than what was realized less fees.
pub proof fn law_open_losses_are_losses(c: &Arithmetic, state: BacktestState, i: int)
    requires
        c.is_ieee(),
        c.keeps_order(),
        c.rounds(),
        c.rounds_differences(),
        are_real(state.gate.slots),
        are_priced(c, state.gate.slots, state.book),
        forall|j: int|
            0 <= j < state.gate.slots.len() ==> is_behind(
                c,
                #[trigger] state.gate.slots[j],
                state.book,
            ),
    ensures
        ({
            let slots = state.gate.slots;
            let open = state.final_report(c).unrealized_pnl;
            let kept = c.minus(state.report.realized_pnl, state.report.fees_paid);
            &&& open.le(Double::from_bits(ZERO))
            &&& 0 <= i < slots.len() ==> (slots[i].position matches Some(p) ==> (state.book.mid(
                c,
                slots[i].contract@,
            ) matches Some(mid) ==> !p.qty.abs().lt(
                Double::from_bits(position::DUST_EPSILON),
            ) ==> open.le(c.times(p.qty, c.minus(mid, p.avg_price)))))
            &&& kept.is_finite() ==> state.equity(c).le(kept)
        }),
{
    lemma_total_behind(c, state.gate.slots, state.book, i);
    let zero = Double::from_bits(ZERO);
    let kept = c.minus(state.report.realized_pnl, state.report.fees_paid);
    if kept.is_finite() {
        reveal(Arithmetic::rounds_sums);
        let open = unrealized(c, RiskGate::held_positions(state.gate.slots), state.book);
        assert(c.plus(kept, open).le(c.plus(kept, zero))) by {
            if !open.is_finite() {
                assert(c.plus(open, kept) == c.plus(kept, open)) by {
                    assert(!c.plus(open, kept).is_nan());
                }
            }
        }
    }
}

/// The only open position is the whole of it: where every other slot is flat or has no market, the
/// unrealized profit is the one position's quantity times the middle less its average price.
pub proof fn law_one_open_position_is_the_whole(c: &Arithmetic, state: BacktestState, i: int)
    requires
        c.is_ieee(),
        c.keeps_order(),
        c.rounds(),
        c.rounds_differences(),
        are_real(state.gate.slots),
        are_priced(c, state.gate.slots, state.book),
        0 <= i < state.gate.slots.len(),
        state.gate.slots[i].position matches Some(p) && !p.qty.abs().lt(
            Double::from_bits(position::DUST_EPSILON),
        ),
        state.book.mid(c, state.gate.slots[i].contract@) is Some,
        forall|j: int|
            0 <= j < state.gate.slots.len() && j != i ==> ((
            #[trigger] state.gate.slots[j]).position matches Some(p) ==> p.qty.abs().lt(
                Double::from_bits(position::DUST_EPSILON),
            ) || state.book.mid(c, state.gate.slots[j].contract@) is None),
    ensures
        ({
            let p = state.gate.slots[i].position->0;
            let mid = state.book.mid(c, state.gate.slots[i].contract@)->0;
            let open = state.final_report(c).unrealized_pnl;
            let kept = c.minus(state.report.realized_pnl, state.report.fees_paid);
            &&& open.same(c.times(p.qty, c.minus(mid, p.avg_price)))
            &&& state.equity(c) == c.plus(kept, open)
        }),
{
    lemma_only(c, state.gate.slots, state.book, i);
}

proof fn lemma_only(c: &Arithmetic, slots: Seq<Slot>, book: BookState, i: int)
    requires
        c.is_ieee(),
        c.keeps_order(),
        c.rounds(),
        c.rounds_differences(),
        are_real(slots),
        are_priced(c, slots, book),
        forall|j: int|
            0 <= j < slots.len() && j != i ==> own_gain(c, #[trigger] slots[j], book) is None,
    ensures
        ({
            let total = unrealized(c, RiskGate::held_positions(slots), book);
            if 0 <= i < slots.len() && own_gain(c, slots[i], book) is Some {
                total.same(own_gain(c, slots[i], book)->0)
            } else {
                total == Double::from_bits(ZERO)
            }
        }),
    decreases slots.len(),
{
    if slots.len() > 0 {
        let rest = slots.drop_last();
        let n = slots.len() - 1;
        assert forall|j: int| 0 <= j < rest.len() implies is_real(#[trigger] rest[j]) && (j != i
            ==> own_gain(c, rest[j], book) is None) && (book.mid(
            c,
            rest[j].contract@,
        ) matches Some(mid) ==> validate::is_probability(mid)) by {
            assert(rest[j] == slots[j]);
            assert(is_real(slots[j]));
            assert(book.mid(c, slots[j].contract@) matches Some(mid) ==> validate::is_probability(
                mid,
            ));
        }
        lemma_only(c, rest, book, i);
        lemma_one_more(c, slots, book);
        assert(slots[n] == slots.last());
        assert(is_real(slots[n]));
        lemma_gain(c, slots[n], book);
        assert(0 <= i < n ==> rest[i] == slots[i]);
        if let Some(gain) = own_gain(c, slots[n], book) {
            assert(i == n);
            let zero = Double::from_bits(ZERO);
            assert(unrealized(c, RiskGate::held_positions(rest), book) == zero);
            assert(gain.is_zero() ==> c.plus(zero, gain).is_zero());
            assert(!gain.is_zero() ==> c.plus(zero, gain) == gain);
        }
    }
}

/// One more holding adds what it would bring and nothing else.
pub proof fn law_one_more_holding_adds_its_own(
    c: &Arithmetic,
    slots: Seq<Slot>,
    slot: Slot,
    book: BookState,
)
    ensures
        ({
            let before = unrealized(c, RiskGate::held_positions(slots), book);
            let after = unrealized(c, RiskGate::held_positions(slots.push(slot)), book);
            match (slot.position, book.mid(c, slot.contract@)) {
                (Some(p), Some(mid)) => if p.qty.abs().lt(
                    Double::from_bits(position::DUST_EPSILON),
                ) {
                    after == before
                } else {
                    after == c.plus(before, c.times(p.qty, c.minus(mid, p.avg_price)))
                },
                _ => after == before,
            }
        }),
{
    lemma_one_more(c, slots.push(slot), book);
    assert(slots.push(slot).drop_last() =~= slots);
}

proof fn lemma_moves(c: &Arithmetic, slots: Seq<Slot>, low: BookState, high: BookState)
    requires
        c.is_ieee(),
        c.keeps_order(),
        c.rounds(),
        c.rounds_differences(),
        are_real(slots),
        are_priced(c, slots, low),
        are_priced(c, slots, high),
        forall|i: int| 0 <= i < slots.len() ==> moves_for(c, #[trigger] slots[i], low, high),
    ensures
        ({
            let a = unrealized(c, RiskGate::held_positions(slots), low);
            let b = unrealized(c, RiskGate::held_positions(slots), high);
            &&& a.le(b)
            &&& a.abs().le(two_to(118))
            &&& b.abs().le(two_to(118))
        }),
    decreases slots.len(),
{
    law_powers_are_ordered(64, 118);
    if slots.len() > 0 {
        let rest = slots.drop_last();
        let n = slots.len() - 1;
        assert forall|j: int| 0 <= j < rest.len() implies is_real(#[trigger] rest[j]) && moves_for(
            c,
            rest[j],
            low,
            high,
        ) && (low.mid(c, rest[j].contract@) matches Some(mid) ==> validate::is_probability(mid))
            && (high.mid(c, rest[j].contract@) matches Some(mid) ==> validate::is_probability(
            mid,
        )) by {
            assert(rest[j] == slots[j]);
            assert(is_real(slots[j]) && moves_for(c, slots[j], low, high));
            assert(low.mid(c, slots[j].contract@) matches Some(mid) ==> validate::is_probability(
                mid,
            ));
            assert(high.mid(c, slots[j].contract@) matches Some(mid) ==> validate::is_probability(
                mid,
            ));
        }
        lemma_moves(c, rest, low, high);
        lemma_one_more(c, slots, low);
        lemma_one_more(c, slots, high);
        let slot = slots[n];
        assert(slot == slots.last());
        assert(is_real(slot) && moves_for(c, slot, low, high));
        lemma_gain(c, slot, low);
        lemma_gain(c, slot, high);
        if let Some(x) = own_gain(c, slot, low) {
            let y = own_gain(c, slot, high)->0;
            let a = unrealized(c, RiskGate::held_positions(rest), low);
            let b = unrealized(c, RiskGate::held_positions(rest), high);
            lemma_gain_moves(c, slot, low, high);
            lemma_signed_sum_stays(c, a, x);
            lemma_signed_sum_stays(c, b, y);
            lemma_signed_sum_stays(c, a, y);
            reveal(Arithmetic::rounds_sums);
            assert(c.plus(a, x).le(c.plus(a, y)));
            assert(c.plus(y, a) == c.plus(a, y) && c.plus(y, b) == c.plus(b, y));
            assert(c.plus(y, a).le(c.plus(y, b)));
        }
    }
}

/// Whether the market of a slot moves its way from one book to another: up for what is held, down
/// for what is short, and it is a market in both books or in neither. Quantities are up to 2^64.
pub open spec fn moves_for(c: &Arithmetic, slot: Slot, low: BookState, high: BookState) -> bool {
    let zero = Double::from_bits(ZERO);
    slot.position matches Some(p) ==> {
        &&& p.qty.abs().le(two_to(64))
        &&& match (low.mid(c, slot.contract@), high.mid(c, slot.contract@)) {
            (Some(a), Some(b)) => (p.qty.gt(zero) ==> a.le(b)) && (p.qty.lt(zero) ==> b.le(a)),
            (None, None) => true,
            _ => false,
        }
    }
}

proof fn lemma_gain_moves(c: &Arithmetic, slot: Slot, low: BookState, high: BookState)
    requires
        c.is_ieee(),
        c.keeps_order(),
        c.rounds(),
        c.rounds_differences(),
        is_real(slot),
        own_gain(c, slot, low) is Some,
        moves_for(c, slot, low, high),
        low.mid(c, slot.contract@) matches Some(mid) ==> validate::is_probability(mid),
        high.mid(c, slot.contract@) matches Some(mid) ==> validate::is_probability(mid),
    ensures
        own_gain(c, slot, high) is Some,
        own_gain(c, slot, low)->0.le(own_gain(c, slot, high)->0),
{
    reveal(Arithmetic::rounds_products);
    let zero = Double::from_bits(ZERO);
    let p = slot.position->0;
    let a = low.mid(c, slot.contract@)->0;
    let b = high.mid(c, slot.contract@)->0;
    let (x, y) = (c.minus(a, p.avg_price), c.minus(b, p.avg_price));
    lemma_distance(c, a, p.avg_price);
    lemma_distance(c, b, p.avg_price);
    lemma_product_sign(c, p.qty, x);
    lemma_product_sign(c, p.qty, y);
    if p.qty.gt(zero) {
        assert(x.le(y));
        assert(c.times(p.qty, x).le(c.times(p.qty, y)));
    } else {
        let k = p.qty.neg();
        assert(p.qty == k.neg());
        assert(y.le(x));
        lemma_product_sign(c, k, x);
        lemma_product_sign(c, k, y);
        assert(c.times(k, y).le(c.times(k, x)));
        assert(c.times(x, k) == c.times(k, x) && c.times(y, k) == c.times(k, y));
        assert(c.times(x, k.neg()) == c.times(x, k).neg());
        assert(c.times(y, k.neg()) == c.times(y, k).neg());
        assert(c.times(k.neg(), x) == c.times(x, k.neg()));
        assert(c.times(k.neg(), y) == c.times(y, k.neg()));
    }
}

proof fn lemma_signed_sum_stays(c: &Arithmetic, a: Double, b: Double)
    requires
        c.is_ieee(),
        c.keeps_order(),
        c.rounds(),
        a.abs().le(two_to(118)),
        b.abs().le(two_to(64)),
    ensures
        c.plus(a, b).abs().le(two_to(118)),
{
    reveal(Arithmetic::rounds_sums);
    reveal(Arithmetic::adds_powers);
    law_powers_are_ordered(64, 118);
    let (l, s) = (two_to(118), two_to(64));
    assert(c.plus(l, s) == l);
    assert(!c.plus(a, b).is_nan());
    // From above.
    assert(c.plus(a, b).le(c.plus(a, s)));
    assert(c.plus(a, s) == c.plus(s, a));
    assert(c.plus(s, a).le(c.plus(s, l)));
    assert(c.plus(s, l) == c.plus(l, s));
    // From below.
    assert(c.plus(a, s.neg()).le(c.plus(a, b)));
    assert(c.plus(a, s.neg()) == c.plus(s.neg(), a));
    assert(c.plus(s.neg(), l.neg()).le(c.plus(s.neg(), a)));
    assert(c.plus(s.neg(), l.neg()).same(c.plus(s, l).neg()));
}

/// A market that moves for a position moves the profit: where every long's market rises or stays,
/// and every short's falls or stays, the unrealized profit does not fall.
pub proof fn law_profit_follows_the_market(
    c: &Arithmetic,
    state: BacktestState,
    later: BookState,
)
    requires
        c.is_ieee(),
        c.keeps_order(),
        c.rounds(),
        c.rounds_differences(),
        are_real(state.gate.slots),
        are_priced(c, state.gate.slots, state.book),
        are_priced(c, state.gate.slots, later),
        forall|i: int|
            0 <= i < state.gate.slots.len() ==> moves_for(
                c,
                #[trigger] state.gate.slots[i],
                state.book,
                later,
            ),
    ensures
        state.final_report(c).unrealized_pnl.le(
            (BacktestState { book: later, ..state }).final_report(c).unrealized_pnl,
        ),
{
    lemma_moves(c, state.gate.slots, state.book, later);
}

} // verus!
