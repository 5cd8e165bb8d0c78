//! What the limits of the risk gate see: every filled position, every live order, and the order
//! that is asked about.
use vstd::prelude::*;
use crate::book::BookState;
use crate::double::{Arithmetic, Double, ONE, ZERO};
use crate::risk::gate::{
    cluster_axis, cluster_sum, contract_axis, gross, gross_axis, held_notional, notional,
    notional_axis, quote_of, reserved, verdict, GateState, Refusal, RiskGate,
};
use crate::risk::ledger;
use crate::risk::ledger::{Reservation, Slot};
use crate::rounding::{
    law_exact_orders, law_powers_are_ordered, lemma_exact_power, two_to,
};
use crate::types::contract::{CanonicalContractId, Direction};
use crate::types::orders::{OrderIntent, Side};
use crate::types::position::Position;
use crate::types::time::Timestamp;
use crate::types::validate;
use crate::types::venue::VenueId;

verus! {

/// A sum of numbers that are not negative is no smaller than either of them, infinite or not.
pub proof fn lemma_sum_covers(c: &Arithmetic, a: Double, b: Double)
    requires
        c.is_ieee(),
        c.keeps_order(),
        c.rounds(),
        Double::from_bits(ZERO).le(a),
        Double::from_bits(ZERO).le(b),
    ensures
        a.le(c.plus(a, b)),
        b.le(c.plus(a, b)),
        Double::from_bits(ZERO).le(c.plus(a, b)),
{
    reveal(Arithmetic::rounds_sums);
    let zero = Double::from_bits(ZERO);
    assert(zero.le(c.plus(a, b)));
    assert(c.plus(b, a) == c.plus(a, b));
    if a.is_finite() {
        assert(a.le(c.plus(a, b)));
    } else {
        assert(c.plus(a, zero).le(c.plus(a, b)));
    }
    if b.is_finite() {
        assert(b.le(c.plus(b, a)));
    } else {
        assert(c.plus(b, zero).le(c.plus(b, a)));
    }
}

/// Whether a slot's numbers are those of real exposure: a finite quantity at a price that is a
/// probability, and live orders that are not negative.
pub open spec fn is_real(slot: Slot) -> bool {
    &&& slot.position matches Some(p) ==> p.qty.is_finite() && validate::is_probability(p.avg_price)
    &&& slot.working matches Some(r) ==> {
        &&& validate::is_non_negative(r.buy_qty)
        &&& validate::is_non_negative(r.sell_qty)
        &&& validate::is_non_negative(r.buy_notional)
        &&& validate::is_non_negative(r.sell_notional)
    }
}

/// Whether every slot holds real exposure.
pub open spec fn are_real(slots: Seq<Slot>) -> bool {
    forall|i: int| 0 <= i < slots.len() ==> is_real(#[trigger] slots[i])
}

proof fn lemma_position_risk(c: &Arithmetic, p: Position)
    requires
        c.is_ieee(),
        c.keeps_order(),
        p.qty.is_finite(),
        validate::is_probability(p.avg_price),
    ensures
        Double::from_bits(ZERO).le(ledger::position_notional(c, p)),
{
    let zero = Double::from_bits(ZERO);
    let one = Double::from_bits(ONE);
    let rest = c.minus(one, p.avg_price);
    assert(rest.le(one));
    assert(c.minus(one, one).is_zero());
    assert(c.minus(one, one).le(rest));
    assert(zero.le(rest) && rest.is_finite());
    if p.qty.ge(zero) {
        assert(zero.le(c.times(p.qty, p.avg_price)));
    } else {
        assert(zero.le(p.qty.neg()));
        assert(zero.le(c.times(p.qty.neg(), rest)));
    }
}

proof fn lemma_held(c: &Arithmetic, slots: Seq<Slot>, filter: Option<VenueId>, i: int)
    requires
        c.is_ieee(),
        c.keeps_order(),
        c.rounds(),
        are_real(slots),
    ensures
        Double::from_bits(ZERO).le(held_notional(c, slots, filter)),
        0 <= i < slots.len() && (filter is None || filter == Some(slots[i].venue)) ==> (
        slots[i].position matches Some(p) ==> ledger::position_notional(c, p).le(
            held_notional(c, slots, filter),
        )),
    decreases slots.len(),
{
    if slots.len() > 0 {
        let rest = slots.drop_last();
        let n = slots.len() - 1;
        assert(are_real(rest)) by {
            assert forall|j: int| 0 <= j < rest.len() implies is_real(#[trigger] rest[j]) by {
                assert(rest[j] == slots[j]);
            }
        }
        lemma_held(c, rest, filter, i);
        assert(i < n ==> 0 <= i ==> rest[i] == slots[i]);
        assert(is_real(slots[n]));
        if let Some(p) = slots[n].position {
            lemma_position_risk(c, p);
            lemma_sum_covers(
                c,
                held_notional(c, rest, filter),
                ledger::position_notional(c, p),
            );
        }
    }
}

proof fn lemma_notional(
    c: &Arithmetic,
    slots: Seq<Slot>,
    all: Seq<Slot>,
    filter: Option<VenueId>,
    i: int,
)
    requires
        c.is_ieee(),
        c.keeps_order(),
        c.rounds(),
        are_real(slots),
        are_real(all),
    ensures
        held_notional(c, all, filter).le(notional(c, slots, all, filter)),
        Double::from_bits(ZERO).le(notional(c, slots, all, filter)),
        0 <= i < slots.len() && (filter is None || filter == Some(slots[i].venue)) ==> (
        slots[i].working matches Some(r) ==> r.buy_notional.le(notional(c, slots, all, filter))
            && r.sell_notional.le(notional(c, slots, all, filter)) && c.plus(
            r.buy_notional,
            r.sell_notional,
        ).le(notional(c, slots, all, filter))),
    decreases slots.len(),
{
    if slots.len() > 0 {
        let rest = slots.drop_last();
        let n = slots.len() - 1;
        assert(are_real(rest)) by {
            assert forall|j: int| 0 <= j < rest.len() implies is_real(#[trigger] rest[j]) by {
                assert(rest[j] == slots[j]);
            }
        }
        lemma_notional(c, rest, all, filter, i);
        assert(i < n ==> 0 <= i ==> rest[i] == slots[i]);
        assert(is_real(slots[n]));
        if let Some(r) = slots[n].working {
            lemma_sum_covers(c, r.buy_notional, r.sell_notional);
            lemma_sum_covers(
                c,
                notional(c, rest, all, filter),
                c.plus(r.buy_notional, r.sell_notional),
            );
        }
    } else {
        lemma_held(c, all, filter, 0);
    }
}

proof fn lemma_held_beside_vacant(
    c: &Arithmetic,
    slots: Seq<Slot>,
    p: int,
    venue: VenueId,
    contract: CanonicalContractId,
    filter: Option<VenueId>,
)
    requires
        0 <= p <= slots.len(),
    ensures
        held_notional(c, slots.insert(p, Slot::vacant(venue, contract)), filter) == held_notional(
            c,
            slots,
            filter,
        ),
    decreases slots.len(),
{
    let more = slots.insert(p, Slot::vacant(venue, contract));
    if p == slots.len() {
        assert(more.drop_last() =~= slots);
        assert(more.last() == Slot::vacant(venue, contract));
    } else {
        lemma_held_beside_vacant(c, slots.drop_last(), p, venue, contract, filter);
        assert(more.drop_last() =~= slots.drop_last().insert(p, Slot::vacant(venue, contract)));
        assert(more.last() == slots.last());
    }
}

proof fn lemma_notional_beside_vacant(
    c: &Arithmetic,
    slots: Seq<Slot>,
    all: Seq<Slot>,
    more: Seq<Slot>,
    p: int,
    venue: VenueId,
    contract: CanonicalContractId,
    filter: Option<VenueId>,
)
    requires
        0 <= p <= slots.len(),
        held_notional(c, all, filter) == held_notional(c, more, filter),
    ensures
        notional(c, slots.insert(p, Slot::vacant(venue, contract)), more, filter) == notional(
            c,
            slots,
            all,
            filter,
        ),
    decreases slots.len(),
{
    let wide = slots.insert(p, Slot::vacant(venue, contract));
    if p == slots.len() {
        assert(wide.drop_last() =~= slots);
        assert(wide.last() == Slot::vacant(venue, contract));
        lemma_notional_of(c, slots, all, more, filter);
    } else {
        lemma_notional_beside_vacant(
            c,
            slots.drop_last(),
            all,
            more,
            p,
            venue,
            contract,
            filter,
        );
        assert(wide.drop_last() =~= slots.drop_last().insert(p, Slot::vacant(venue, contract)));
        assert(wide.last() == slots.last());
    }
}

proof fn lemma_notional_of(
    c: &Arithmetic,
    slots: Seq<Slot>,
    all: Seq<Slot>,
    more: Seq<Slot>,
    filter: Option<VenueId>,
)
    requires
        held_notional(c, all, filter) == held_notional(c, more, filter),
    ensures
        notional(c, slots, all, filter) == notional(c, slots, more, filter),
    decreases slots.len(),
{
    if slots.len() > 0 {
        lemma_notional_of(c, slots.drop_last(), all, more, filter);
    }
}

/// The money at risk does not depend on whether the order's own slot exists yet.
proof fn lemma_axis_of_slots(
    c: &Arithmetic,
    slots: Seq<Slot>,
    intent: OrderIntent,
    filter: Option<VenueId>,
)
    requires
        ledger::in_order(slots),
    ensures
        notional_axis(c, slots, intent, filter).current == notional(c, slots, slots, filter),
{
    ledger::lemma_place(slots, intent.venue, intent.contract@);
    if !ledger::has_slot(slots, intent.venue, intent.contract@) {
        let p = ledger::place(slots, intent.venue, intent.contract@);
        let all = ledger::seated(slots, intent.venue, intent.contract);
        lemma_held_beside_vacant(c, slots, p, intent.venue, intent.contract, filter);
        lemma_notional_beside_vacant(
            c,
            slots,
            slots,
            all,
            p,
            intent.venue,
            intent.contract,
            filter,
        );
    }
}

/// Money at risk counts every filled position and every live order of the venue, or of all venues
/// where there is no venue: a long at what it cost, a short at what is left to one, a live order at
/// what it would cost. With the order that is asked about the axis grows by what that one costs.
pub proof fn law_money_at_risk_counts_everything(
    c: &Arithmetic,
    slots: Seq<Slot>,
    intent: OrderIntent,
    filter: Option<VenueId>,
    i: int,
)
    requires
        c.is_ieee(),
        c.keeps_order(),
        c.rounds(),
        ledger::in_order(slots),
        are_real(slots),
        0 <= i < slots.len(),
        filter is None || filter == Some(slots[i].venue),
        intent.is_valid(),
    ensures
        ({
            let axis = notional_axis(c, slots, intent, filter);
            let one = Double::from_bits(ONE);
            let zero = Double::from_bits(ZERO);
            let cost = match intent.side {
                Side::Buy => c.times(intent.size, intent.price),
                Side::Sell => c.times(intent.size, c.minus(one, intent.price)),
            };
            &&& slots[i].position matches Some(p) ==> {
                &&& p.qty.gt(zero) ==> c.times(p.qty, p.avg_price).le(axis.current)
                &&& p.qty.lt(zero) ==> c.times(p.qty.neg(), c.minus(one, p.avg_price)).le(
                    axis.current,
                )
            }
            &&& slots[i].working matches Some(r) ==> c.plus(r.buy_notional, r.sell_notional).le(
                axis.current,
            )
            &&& axis.current.le(axis.projected)
            &&& cost.le(axis.projected)
            &&& axis.projected.same(c.plus(axis.current, cost))
        }),
{
    lemma_axis_of_slots(c, slots, intent, filter);
    lemma_held(c, slots, filter, i);
    lemma_notional(c, slots, slots, filter, i);
    lemma_order_cost(c, intent);
    lemma_sum_covers(c, notional(c, slots, slots, filter), intent.notional(c));
}

proof fn lemma_order_cost(c: &Arithmetic, intent: OrderIntent)
    requires
        c.is_ieee(),
        c.keeps_order(),
        intent.is_valid(),
    ensures
        Double::from_bits(ZERO).le(intent.notional(c)),
{
    let zero = Double::from_bits(ZERO);
    let one = Double::from_bits(ONE);
    let rest = c.minus(one, intent.price);
    assert(rest.le(one));
    assert(c.minus(one, one).is_zero());
    assert(c.minus(one, one).le(rest));
    assert(zero.le(rest) && rest.is_finite());
    assert(zero.le(c.times(intent.size, rest)));
    assert(zero.le(c.times(intent.size, intent.price)));
}

/// A position alone is at risk for exactly what it can lose: nothing else is on the axis.
pub proof fn law_one_position_is_at_risk_for_its_cost(
    c: &Arithmetic,
    slot: Slot,
    p: Position,
    intent: OrderIntent,
    filter: Option<VenueId>,
)
    requires
        c.is_ieee(),
        c.keeps_order(),
        ledger::in_order(seq![slot]),
        is_real(slot),
        slot.position == Some(p),
        slot.working is None,
    ensures
        ({
            let axis = notional_axis(c, seq![slot], intent, filter);
            let one = Double::from_bits(ONE);
            let zero = Double::from_bits(ZERO);
            if filter is Some && filter != Some(slot.venue) {
                axis.current.is_zero()
            } else if p.qty.gt(zero) {
                axis.current.same(c.times(p.qty, p.avg_price))
            } else if p.qty.lt(zero) {
                axis.current.same(c.times(p.qty.neg(), c.minus(one, p.avg_price)))
            } else {
                axis.current.is_zero()
            }
        }),
{
    let zero = Double::from_bits(ZERO);
    let slots = seq![slot];
    lemma_axis_of_slots(c, slots, intent, filter);
    lemma_position_risk(c, p);
    assert(slots.drop_last() =~= Seq::<Slot>::empty());
    assert(slots.last() == slot);
    reveal_with_fuel(notional, 2);
    reveal_with_fuel(held_notional, 2);
    let own = ledger::position_notional(c, p);
    if p.qty.is_zero() {
        assert(c.times(p.avg_price, p.qty).is_zero());
        lemma_zero_times(c, p.qty, p.avg_price);
    }
    assert(own.is_zero() ==> c.plus(zero, own).is_zero());
    assert(!own.is_zero() ==> c.plus(zero, own) == own);
}

proof fn lemma_zero_times(c: &Arithmetic, z: Double, x: Double)
    requires
        c.is_ieee(),
        c.keeps_order(),
        z.is_zero(),
        validate::is_probability(x),
    ensures
        c.times(z, x).is_zero(),
{
    let zero = Double::from_bits(ZERO);
    let one = Double::from_bits(ONE);
    assert(zero.le(c.times(z, x)));
    assert(c.times(z, one) == z);
    assert(c.times(z, x).le(c.times(z, one)));
}

/// Other venues do not count against a venue: what it has at risk is what its own slots have, and
/// where no venue is named every slot counts.
pub proof fn law_a_venue_answers_for_its_own(c: &Arithmetic, slots: Seq<Slot>, venue: VenueId)
    ensures
        ({
            let own = slots.filter(|s: Slot| s.venue == venue);
            notional(c, slots, slots, Some(venue)) == notional(c, own, own, None)
        }),
{
    let own = slots.filter(|s: Slot| s.venue == venue);
    lemma_held_of_venue(c, slots, venue);
    lemma_notional_of_venue(c, slots, slots, own, venue);
}

proof fn lemma_held_of_venue(c: &Arithmetic, slots: Seq<Slot>, venue: VenueId)
    ensures
        held_notional(c, slots, Some(venue)) == held_notional(
            c,
            slots.filter(|s: Slot| s.venue == venue),
            None,
        ),
    decreases slots.len(),
{
    reveal(Seq::filter);
    if slots.len() > 0 {
        lemma_held_of_venue(c, slots.drop_last(), venue);
        let own = slots.filter(|s: Slot| s.venue == venue);
        let before = slots.drop_last().filter(|s: Slot| s.venue == venue);
        if slots.last().venue == venue {
            assert(own =~= before.push(slots.last()));
            assert(own.drop_last() =~= before);
        } else {
            assert(own =~= before);
        }
    }
}

proof fn lemma_notional_of_venue(
    c: &Arithmetic,
    slots: Seq<Slot>,
    all: Seq<Slot>,
    own: Seq<Slot>,
    venue: VenueId,
)
    requires
        held_notional(c, all, Some(venue)) == held_notional(c, own, None),
    ensures
        notional(c, slots, all, Some(venue)) == notional(
            c,
            slots.filter(|s: Slot| s.venue == venue),
            own,
            None,
        ),
    decreases slots.len(),
{
    reveal(Seq::filter);
    if slots.len() > 0 {
        lemma_notional_of_venue(c, slots.drop_last(), all, own, venue);
        let kept = slots.filter(|s: Slot| s.venue == venue);
        let before = slots.drop_last().filter(|s: Slot| s.venue == venue);
        if slots.last().venue == venue {
            assert(kept =~= before.push(slots.last()));
            assert(kept.drop_last() =~= before);
        } else {
            assert(kept =~= before);
        }
    }
}

/// An order that clears leaves room for the money that is already at risk: at its venue, and over
/// all venues, no position together with the order is over the limit. So a filled order keeps its
/// budget. The money at risk must be within 2^30, and the order must cost at least 2^-20.
pub proof fn law_cleared_order_fits_beside_every_position(
    c: &Arithmetic,
    g: GateState,
    slots: Seq<Slot>,
    intent: OrderIntent,
    book: BookState,
    now: Timestamp,
    i: int,
)
    requires
        c.is_ieee(),
        c.keeps_order(),
        c.rounds(),
        c.is_accurate(),
        ledger::in_order(slots),
        are_real(slots),
        0 <= i < slots.len(),
        verdict(c, g, slots, intent, book, now) is None,
        notional_axis(c, slots, intent, None).current.le(two_to(30)),
        notional_axis(c, slots, intent, Some(intent.venue)).current.le(two_to(30)),
        ({
            let cost = match intent.side {
                Side::Buy => c.times(intent.size, intent.price),
                Side::Sell => c.times(
                    intent.size,
                    c.minus(Double::from_bits(ONE), intent.price),
                ),
            };
            two_to(-20).le(cost) && cost.le(two_to(30))
        }),
    ensures
        ({
            let one = Double::from_bits(ONE);
            let zero = Double::from_bits(ZERO);
            let cost = match intent.side {
                Side::Buy => c.times(intent.size, intent.price),
                Side::Sell => c.times(intent.size, c.minus(one, intent.price)),
            };
            let at_risk = match slots[i].position {
                Some(p) => if p.qty.gt(zero) {
                    c.times(p.qty, p.avg_price)
                } else {
                    c.times(p.qty.neg(), c.minus(one, p.avg_price))
                },
                None => zero,
            };
            let live = match slots[i].working {
                Some(r) => c.plus(r.buy_notional, r.sell_notional),
                None => zero,
            };
            let full = slots[i].position matches Some(p) ==> !p.qty.is_zero();
            &&& !cost.gt(g.limits.max_notional_per_order)
            &&& full ==> !c.plus(at_risk, cost).gt(g.limits.max_notional_total)
            &&& !c.plus(live, cost).gt(g.limits.max_notional_total)
            &&& slots[i].venue == intent.venue ==> {
                &&& full ==> !c.plus(at_risk, cost).gt(g.limits.max_notional_per_venue)
                &&& !c.plus(live, cost).gt(g.limits.max_notional_per_venue)
            }
        }),
{
    let zero = Double::from_bits(ZERO);
    assert(intent.is_valid());
    law_money_at_risk_counts_everything(c, slots, intent, None, i);
    let cost = intent.notional(c);
    let total = notional_axis(c, slots, intent, None);
    lemma_axis_of_slots(c, slots, intent, None);
    lemma_notional(c, slots, slots, None, i);
    lemma_room(c, total.current, cost);
    let position = match slots[i].position {
        Some(p) => if p.qty.gt(zero) {
            c.times(p.qty, p.avg_price)
        } else {
            c.times(p.qty.neg(), c.minus(Double::from_bits(ONE), p.avg_price))
        },
        None => zero,
    };
    let live = match slots[i].working {
        Some(r) => c.plus(r.buy_notional, r.sell_notional),
        None => zero,
    };
    let full = slots[i].position matches Some(p) ==> !p.qty.is_zero();
    if full {
        assert(is_real(slots[i]));
        if let Some(p) = slots[i].position {
            lemma_position_risk(c, p);
        }
        lemma_fits(c, position, total.current, cost, g.limits.max_notional_total);
    }
    assert(zero.le(live)) by {
        if let Some(r) = slots[i].working {
            lemma_sum_covers(c, r.buy_notional, r.sell_notional);
        }
    }
    lemma_fits(c, live, total.current, cost, g.limits.max_notional_total);
    if slots[i].venue == intent.venue {
        law_money_at_risk_counts_everything(c, slots, intent, Some(intent.venue), i);
        let own = notional_axis(c, slots, intent, Some(intent.venue));
        lemma_axis_of_slots(c, slots, intent, Some(intent.venue));
        lemma_notional(c, slots, slots, Some(intent.venue), i);
        lemma_room(c, own.current, cost);
        if full {
            lemma_fits(c, position, own.current, cost, g.limits.max_notional_per_venue);
        }
        lemma_fits(c, live, own.current, cost, g.limits.max_notional_per_venue);
    }
}

/// What costs something adds something.
proof fn lemma_room(c: &Arithmetic, current: Double, cost: Double)
    requires
        c.is_accurate(),
        Double::from_bits(ZERO).le(current),
        current.le(two_to(30)),
        two_to(-20).le(cost),
        cost.le(two_to(30)),
    ensures
        current.lt(c.plus(current, cost)),
{
    reveal(Arithmetic::is_accurate);
    law_powers_are_ordered(-20, 30);
    law_powers_are_ordered(30, 31);
    law_powers_are_ordered(-22, -20);
    lemma_exact_power(30);
    lemma_exact_power(-22);
    lemma_exact_power(-21);
    law_exact_orders(current, two_to(30));
    law_exact_orders(cost, two_to(30));
    law_exact_orders(two_to(-20), cost);
    law_exact_orders(Double::from_bits(ZERO), current);
    lemma_exact_power(31);
    let sum = c.plus(current, cost);
    assert(crate::rounding::gap(current.exact() + cost.exact(), 0) <= two_to(31).exact());
    assert(sum.abs().le(two_to(31)));
    law_exact_orders(sum, current);
}

proof fn lemma_fits(c: &Arithmetic, part: Double, current: Double, cost: Double, limit: Double)
    requires
        c.is_ieee(),
        c.keeps_order(),
        c.rounds(),
        Double::from_bits(ZERO).le(part),
        part.le(current),
        Double::from_bits(ZERO).le(cost),
        !c.plus(current, cost).gt(limit),
    ensures
        !c.plus(part, cost).gt(limit),
{
    reveal(Arithmetic::rounds_sums);
    lemma_sum_covers(c, part, cost);
    lemma_sum_covers(c, current, cost);
    assert(c.plus(cost, part) == c.plus(part, cost));
    assert(c.plus(cost, current) == c.plus(current, cost));
    assert(c.plus(cost, part).le(c.plus(cost, current)));
}

/// Where a slot can end: what is held with every live order of one side filled and none of the
/// other. Both ends count, so does the order that is asked about, and a quantity is charged
/// whichever way it is held.
pub proof fn law_cleared_order_keeps_the_contract_limit(
    c: &Arithmetic,
    g: GateState,
    slots: Seq<Slot>,
    intent: OrderIntent,
    book: BookState,
    now: Timestamp,
)
    requires
        verdict(c, g, slots, intent, book, now) is None,
    ensures
        ({
            let zero = Double::from_bits(ZERO);
            let limit = g.limits.max_abs_qty_per_contract;
            let slot = ledger::slot_of(slots, intent.venue, intent.contract);
            let held = match slot.position {
                Some(p) => p.qty,
                None => zero,
            };
            let (buys, sells) = match slot.working {
                Some(r) => (r.buy_qty, r.sell_qty),
                None => (zero, zero),
            };
            let top = c.plus(c.plus(held, buys), zero);
            let bottom = c.minus(c.minus(held, sells), zero);
            match intent.side {
                Side::Buy => {
                    let end = c.plus(c.plus(held, buys), intent.size);
                    !end.gt(limit) || !end.gt(top) || !end.gt(bottom.neg())
                },
                Side::Sell => {
                    let end = c.minus(c.minus(held, sells), intent.size).neg();
                    !end.gt(limit) || !end.gt(top) || !end.gt(bottom.neg())
                },
            }
        }),
{
}

/// One more slot adds its own worst case to the gross, and nothing but that: the larger of what it
/// holds with every buy filled and what it is short with every sale filled. A slot of another venue
/// adds nothing to a venue, and no slots add nothing.
pub proof fn law_gross_adds_each_slot(
    c: &Arithmetic,
    slots: Seq<Slot>,
    slot: Slot,
    filter: Option<VenueId>,
    venue: VenueId,
    contract: Seq<char>,
    extra_buy: Double,
    extra_sell: Double,
)
    ensures
        gross(c, Seq::empty(), filter, venue, contract, extra_buy, extra_sell).is_zero(),
        ({
            let zero = Double::from_bits(ZERO);
            let before = gross(c, slots, filter, venue, contract, extra_buy, extra_sell);
            let after = gross(c, slots.push(slot), filter, venue, contract, extra_buy, extra_sell);
            let held = match slot.position {
                Some(p) => p.qty,
                None => zero,
            };
            let (buys, sells) = match slot.working {
                Some(r) => (r.buy_qty, r.sell_qty),
                None => (zero, zero),
            };
            let own = slot.venue == venue && slot.contract@ == contract;
            let high = c.plus(c.plus(held, buys), if own { extra_buy } else { zero });
            let low = c.minus(c.minus(held, sells), if own { extra_sell } else { zero });
            if filter is Some && filter != Some(slot.venue) {
                after == before
            } else {
                after == c.plus(before, high.larger(low.neg()))
            }
        }),
{
    assert(slots.push(slot).drop_last() =~= slots);
    assert(slots.push(slot).last() == slot);
}

/// A venue's gross and the gross in total see the order that is asked about: a buy as more to be
/// held, a sale as more to be short, at the order's own venue and contract.
pub proof fn law_gross_sees_the_order(
    c: &Arithmetic,
    slots: Seq<Slot>,
    intent: OrderIntent,
    filter: Option<VenueId>,
)
    ensures
        ({
            let zero = Double::from_bits(ZERO);
            let all = ledger::seated(slots, intent.venue, intent.contract);
            let name = intent.contract@;
            let axis = gross_axis(c, slots, intent, filter);
            &&& axis.current == gross(c, all, filter, intent.venue, name, zero, zero)
            &&& intent.side == Side::Buy ==> axis.projected == gross(
                c,
                all,
                filter,
                intent.venue,
                name,
                intent.size,
                zero,
            )
            &&& intent.side == Side::Sell ==> axis.projected == gross(
                c,
                all,
                filter,
                intent.venue,
                name,
                zero,
                intent.size,
            )
        }),
{
}

/// One more slot of a cluster widens the cluster's range by its own: its lowest end to the lowest
/// and its highest to the highest, turned round for a contract that pays on a fall, so that a bet
/// on a rise and one on a fall offset each other. Another cluster's slot adds nothing.
pub proof fn law_cluster_adds_each_slot(
    c: &Arithmetic,
    g: GateState,
    slots: Seq<Slot>,
    slot: Slot,
    cluster: Seq<char>,
    venue: VenueId,
    contract: Seq<char>,
    extra_buy: Double,
    extra_sell: Double,
)
    ensures
        ({
            let zero = Double::from_bits(ZERO);
            let (low_sum, high_sum) = cluster_sum(
                c,
                g,
                slots,
                cluster,
                venue,
                contract,
                extra_buy,
                extra_sell,
            );
            let after = cluster_sum(
                c,
                g,
                slots.push(slot),
                cluster,
                venue,
                contract,
                extra_buy,
                extra_sell,
            );
            let held = match slot.position {
                Some(p) => p.qty,
                None => zero,
            };
            let (buys, sells) = match slot.working {
                Some(r) => (r.buy_qty, r.sell_qty),
                None => (zero, zero),
            };
            let own = slot.venue == venue && slot.contract@ == contract;
            let high = c.plus(c.plus(held, buys), if own { extra_buy } else { zero });
            let low = c.minus(c.minus(held, sells), if own { extra_sell } else { zero });
            let member = if g.clusters.contains_key(slot.contract@) {
                g.clusters[slot.contract@].0@ == cluster
            } else {
                slot.contract@ == cluster
            };
            let pays_on_a_fall = CanonicalContractId::terms(slot.contract@) matches Some((d, _))
                && d == Direction::LessThan;
            if !member {
                after == (low_sum, high_sum)
            } else if pays_on_a_fall {
                after == (c.plus(low_sum, high.neg()), c.plus(high_sum, low.neg()))
            } else {
                after == (c.plus(low_sum, low), c.plus(high_sum, high))
            }
        }),
{
    assert(slots.push(slot).drop_last() =~= slots);
    assert(slots.push(slot).last() == slot);
}

/// An order that clears pays no more than the touch and the collar: a buy no more than so much
/// above the venue's ask, a sale no more than so much below its bid; and the quote it goes by is
/// one of the order's own venue, no newer than now and no older than is allowed.
pub proof fn law_cleared_order_is_near_the_touch(
    c: &Arithmetic,
    g: GateState,
    slots: Seq<Slot>,
    intent: OrderIntent,
    book: BookState,
    now: Timestamp,
)
    requires
        verdict(c, g, slots, intent, book, now) is None,
    ensures
        exists|k: int|
            0 <= k < book.quotes(intent.contract@).len() && {
                let tick = #[trigger] book.quotes(intent.contract@)[k];
                let far = g.limits.max_price_through_book;
                &&& tick.venue == intent.venue
                &&& tick.receive_ts.0 <= now.0
                &&& now.0 - tick.receive_ts.0 <= g.limits.max_feed_staleness_ns || now.0
                    - tick.receive_ts.0 > i64::MAX
                &&& intent.side == Side::Buy && intent.price.gt(tick.ask) ==> !c.minus(
                    intent.price,
                    tick.ask,
                ).abs().gt(far)
                &&& intent.side == Side::Sell && intent.price.lt(tick.bid) ==> !c.minus(
                    intent.price,
                    tick.bid,
                ).abs().gt(far)
            },
{
    lemma_quote(book.quotes(intent.contract@), intent.venue);
}

proof fn lemma_quote(quotes: Seq<crate::types::market::NormalizedTick>, venue: VenueId)
    ensures
        match quote_of(quotes, venue) {
            Some(t) => t.venue == venue && exists|k: int|
                0 <= k < quotes.len() && #[trigger] quotes[k] == t,
            None => forall|k: int| 0 <= k < quotes.len() ==> (#[trigger] quotes[k]).venue != venue,
        },
    decreases quotes.len(),
{
    if quotes.len() > 0 && quotes[0].venue != venue {
        let rest = quotes.skip(1);
        lemma_quote(rest, venue);
        match quote_of(rest, venue) {
            Some(t) => {
                let k = choose|k: int| 0 <= k < rest.len() && #[trigger] rest[k] == t;
                assert(quotes[k + 1] == t);
            },
            None => {
                assert forall|k: int| 0 <= k < quotes.len() implies (#[trigger] quotes[k]).venue
                    != venue by {
                    if k > 0 {
                        assert(rest[k - 1] == quotes[k]);
                    }
                }
            },
        }
    } else if quotes.len() > 0 {
        assert(quotes[0] == quote_of(quotes, venue)->0);
    }
}

/// No order is refused for want of market data where the venue quotes the contract, and none is
/// cleared without.
pub proof fn law_market_data_is_the_venues_own(
    c: &Arithmetic,
    g: GateState,
    slots: Seq<Slot>,
    intent: OrderIntent,
    book: BookState,
    now: Timestamp,
)
    ensures
        verdict(c, g, slots, intent, book, now) == Some(Refusal::NoMarketData) ==> forall|k: int|
            0 <= k < book.quotes(intent.contract@).len() ==> (#[trigger] book.quotes(
                intent.contract@,
            )[k]).venue != intent.venue,
        (forall|k: int|
            0 <= k < book.quotes(intent.contract@).len() ==> (#[trigger] book.quotes(
                intent.contract@,
            )[k]).venue != intent.venue) ==> verdict(c, g, slots, intent, book, now) is Some,
        verdict(c, g, slots, intent, book, now) matches Some(
            Refusal::PriceThroughBook { touch, price, max_through },
        ) ==> {
            &&& price == intent.price
            &&& max_through == g.limits.max_price_through_book
            &&& c.minus(price, touch).abs().gt(max_through)
            &&& match intent.side {
                Side::Buy => price.gt(touch),
                Side::Sell => price.lt(touch),
            }
        },
{
    lemma_quote(book.quotes(intent.contract@), intent.venue);
}

/// Reserving an order adds its size to what its side has live and its cost to what that side has at
/// risk: a buy costs its price, a sale what is left to one. The other side stays as it is.
pub proof fn law_reserving_adds_size_and_cost(
    c: &Arithmetic,
    slots: Seq<Slot>,
    intent: OrderIntent,
)
    requires
        ledger::in_order(slots),
    ensures
        ({
            let one = Double::from_bits(ONE);
            let was = ledger::slot_of(slots, intent.venue, intent.contract);
            let is = ledger::slot_of(reserved(c, slots, intent), intent.venue, intent.contract);
            let empty = Reservation {
                buy_qty: Double::from_bits(ZERO),
                sell_qty: Double::from_bits(ZERO),
                buy_notional: Double::from_bits(ZERO),
                sell_notional: Double::from_bits(ZERO),
            };
            let a = match was.working {
                Some(r) => r,
                None => empty,
            };
            &&& is.position == was.position
            &&& is.working == Some(
                match intent.side {
                    Side::Buy => Reservation {
                        buy_qty: c.plus(a.buy_qty, intent.size),
                        buy_notional: c.plus(
                            a.buy_notional,
                            c.times(intent.size, intent.price),
                        ),
                        sell_qty: a.sell_qty,
                        sell_notional: a.sell_notional,
                    },
                    Side::Sell => Reservation {
                        buy_qty: a.buy_qty,
                        buy_notional: a.buy_notional,
                        sell_qty: c.plus(a.sell_qty, intent.size),
                        sell_notional: c.plus(
                            a.sell_notional,
                            c.times(intent.size, c.minus(one, intent.price)),
                        ),
                    },
                },
            )
        }),
{
    crate::risk::gate::law_reservation_is_visible(
        c,
        slots,
        intent,
        intent.venue,
        intent.contract,
    );
    ledger::lemma_seated(slots, intent.venue, intent.contract);
    let slot = ledger::slot_of(slots, intent.venue, intent.contract);
    let p = ledger::place(slots, intent.venue, intent.contract@);
    assert(ledger::seated(slots, intent.venue, intent.contract)[p].is_sound());
    ledger::law_put_changes_one_slot(
        slots,
        Slot { working: Some(slot.live().plus(c, intent)), ..slot },
        intent.venue,
        intent.contract,
    );
}

/// What an engine is told of a venue is what is held there and what is working: the filled
/// quantity, more by what is being bought and less by what is being sold. Where nothing is held and
/// nothing works, it is told of nothing.
pub proof fn law_inventory_is_held_and_working(
    c: &Arithmetic,
    slots: Seq<Slot>,
    venue: VenueId,
    contract: CanonicalContractId,
)
    ensures
        ({
            let zero = Double::from_bits(ZERO);
            let slot = ledger::slot_of(slots, venue, contract);
            let told = RiskGate::exposure(c, slots, venue, contract);
            let works = slot.working matches Some(r) && !(r.buy_qty.le(zero) && r.sell_qty.le(
                zero,
            ));
            let held = match slot.position {
                Some(p) => p.qty,
                None => zero,
            };
            &&& told is None <==> slot.position is None && !works
            &&& works ==> told == Some(
                c.plus(held, c.minus(slot.working->0.buy_qty, slot.working->0.sell_qty)),
            )
            &&& !works && slot.position is Some ==> told == Some(held)
        }),
{
}

/// A mark halts on a loss and on nothing else: where the equity is no finite number, where it lies
/// below the first mark by more than the session may lose, or below the highest mark by more than
/// the allowed fall. The first finite mark halts nothing.
pub proof fn law_mark_halts_on_a_breach(c: &Arithmetic, g: GateState, equity: Double)
    requires
        c.is_ieee(),
        validate::is_non_negative(g.limits.max_drawdown_from_peak),
    ensures
        RiskGate::mark_halt(c, g, equity) is Some <==> !equity.is_finite() || (
        g.start_equity matches Some(start) && (c.minus(start, equity).gt(
            g.limits.max_session_loss,
        ) || (g.peak_equity.gt(equity) && c.minus(g.peak_equity, equity).gt(
            g.limits.max_drawdown_from_peak,
        )))),
{
    if let Some(start) = g.start_equity {
        if equity.is_finite() && !g.peak_equity.gt(equity) {
            let top = g.peak_equity.larger(equity);
            assert(top.same(equity) || top == equity);
            assert(c.minus(equity, equity).is_zero());
            if top != equity {
                // Two zeros of different signs.
                assert(top.is_zero() && equity.is_zero());
                assert(c.minus(top, equity).le(top));
            }
        }
    }
}

/// The first finite mark is where a session starts, and stays so; the peak is never below a mark
/// that was made, and never falls.
pub proof fn law_marks_set_start_and_peak(
    g: GateState,
    equity: Double,
    switch: crate::risk::kill_switch::SwitchState,
)
    requires
        equity.is_finite(),
    ensures
        ({
            let after = RiskGate::marked(g, equity, switch);
            &&& g.start_equity is None ==> after.start_equity == Some(equity) && after.peak_equity
                == equity
            &&& g.start_equity is Some ==> after.start_equity == g.start_equity
            &&& equity.le(after.peak_equity)
            &&& g.start_equity is Some && !g.peak_equity.is_nan() ==> g.peak_equity.le(
                after.peak_equity,
            )
            &&& after.peak_equity == equity || after.peak_equity == g.peak_equity
            &&& after.slots == g.slots && after.live == g.live && after.limits == g.limits
        }),
{
}

/// An order that clears keeps the cluster, the venue and the whole within their limits, with the
/// order counted on its own side, or leaves what is over a limit no worse than it was.
pub proof fn law_cleared_order_keeps_cluster_and_gross(
    c: &Arithmetic,
    g: GateState,
    slots: Seq<Slot>,
    intent: OrderIntent,
    book: BookState,
    now: Timestamp,
)
    requires
        verdict(c, g, slots, intent, book, now) is None,
    ensures
        ({
            let zero = Double::from_bits(ZERO);
            let (v, name) = (intent.venue, intent.contract@);
            let all = ledger::seated(slots, v, intent.contract);
            let cluster = if g.clusters.contains_key(name) {
                g.clusters[name].0@
            } else {
                name
            };
            let (eb, es) = match intent.side {
                Side::Buy => (intent.size, zero),
                Side::Sell => (zero, intent.size),
            };
            let (low, high) = cluster_sum(c, g, all, cluster, v, name, eb, es);
            let (low_now, high_now) = cluster_sum(c, g, all, cluster, v, name, zero, zero);
            let ends = high.larger(low.neg());
            let now_ends = high_now.larger(low_now.neg());
            let venue = gross(c, all, Some(v), v, name, eb, es);
            let venue_now = gross(c, all, Some(v), v, name, zero, zero);
            let total = gross(c, all, None, v, name, eb, es);
            let total_now = gross(c, all, None, v, name, zero, zero);
            &&& !ends.gt(g.limits.max_abs_qty_per_cluster) || !ends.gt(now_ends)
            &&& !venue.gt(g.limits.max_gross_qty_per_venue) || !venue.gt(venue_now)
            &&& !total.gt(g.limits.max_gross_qty_total) || !total.gt(total_now)
        }),
{
}

/// A refusal for a limit names a limit that is really passed: the one that is configured, and an
/// exposure above it.
pub proof fn law_refusal_names_a_real_breach(
    c: &Arithmetic,
    g: GateState,
    slots: Seq<Slot>,
    intent: OrderIntent,
    book: BookState,
    now: Timestamp,
)
    ensures
        match verdict(c, g, slots, intent, book, now) {
            Some(Refusal::ContractLimitExceeded { limit, projected }) => limit
                == g.limits.max_abs_qty_per_contract && projected.gt(limit),
            Some(Refusal::ClusterLimitExceeded { limit, projected }) => limit
                == g.limits.max_abs_qty_per_cluster && projected.gt(limit),
            Some(Refusal::VenueLimitExceeded { limit, projected }) => limit
                == g.limits.max_gross_qty_per_venue && projected.gt(limit),
            Some(Refusal::GrossLimitExceeded { limit, projected }) => limit
                == g.limits.max_gross_qty_total && projected.gt(limit),
            Some(Refusal::NotionalPerOrderExceeded { limit, projected }) => limit
                == g.limits.max_notional_per_order && projected.gt(limit),
            Some(Refusal::NotionalVenueExceeded { limit, projected }) => limit
                == g.limits.max_notional_per_venue && projected.gt(limit),
            Some(Refusal::NotionalTotalExceeded { limit, projected }) => limit
                == g.limits.max_notional_total && projected.gt(limit),
            Some(Refusal::FeedStale { age_ns, max_ns }) => max_ns
                == g.limits.max_feed_staleness_ns && age_ns > max_ns,
            Some(Refusal::ClockSkew { skew_ns }) => skew_ns > 0,
            Some(Refusal::NotReconciled) => !g.reconciled,
            Some(Refusal::Invalid(_)) => !intent.is_valid(),
            Some(Refusal::KillSwitch { .. }) => {
                ||| g.switch.global is Some
                ||| g.switch.venues.at(intent.venue) is Some
                ||| g.switch.contracts.contains_key(intent.contract@)
            },
            _ => true,
        },
{
}

/// Whether nothing but the size of an order could speak against it: the risk gate is reconciled and
/// halts nothing, the order is valid, the venue's quote is there and fresh, and the price does not
/// reach past the touch.
pub open spec fn is_unobjectionable(
    g: GateState,
    intent: OrderIntent,
    book: BookState,
    now: Timestamp,
) -> bool {
    &&& g.reconciled
    &&& g.switch.global is None
    &&& g.switch.venues.at(intent.venue) is None
    &&& !g.switch.contracts.contains_key(intent.contract@)
    &&& validate::is_probability(intent.price)
    &&& intent.size.is_finite()
    &&& Double::from_bits(ZERO).lt(intent.size)
    &&& quote_of(book.quotes(intent.contract@), intent.venue) matches Some(tick) && {
        &&& 0 <= now.age(tick.receive_ts) <= g.limits.max_feed_staleness_ns
        &&& intent.side == Side::Buy ==> intent.price.le(tick.ask)
        &&& intent.side == Side::Sell ==> tick.bid.le(intent.price)
    }
}

/// On an empty ledger an order that nothing else speaks against is cleared where its size and the
/// money that it risks are within every limit, and refused where they are above one.
pub proof fn law_first_order_clears_within_the_limits(
    c: &Arithmetic,
    g: GateState,
    intent: OrderIntent,
    book: BookState,
    now: Timestamp,
)
    requires
        c.is_ieee(),
        c.keeps_order(),
        c.rounds_differences(),
        is_unobjectionable(g, intent, book, now),
        intent.notional(c).is_finite(),
        Double::from_bits(ZERO).lt(intent.notional(c)),
    ensures
        ({
            let n = intent.notional(c);
            let l = g.limits;
            let fits = {
                &&& intent.size.le(l.max_abs_qty_per_contract)
                &&& intent.size.le(l.max_abs_qty_per_cluster)
                &&& intent.size.le(l.max_gross_qty_per_venue)
                &&& intent.size.le(l.max_gross_qty_total)
                &&& n.le(l.max_notional_per_order)
                &&& n.le(l.max_notional_per_venue)
                &&& n.le(l.max_notional_total)
            };
            let breaks = {
                ||| intent.size.gt(l.max_abs_qty_per_contract)
                ||| intent.size.gt(l.max_abs_qty_per_cluster)
                ||| intent.size.gt(l.max_gross_qty_per_venue)
                ||| intent.size.gt(l.max_gross_qty_total)
                ||| n.gt(l.max_notional_per_order)
                ||| n.gt(l.max_notional_per_venue)
                ||| n.gt(l.max_notional_total)
            };
            let refusal = verdict(c, g, Seq::<Slot>::empty(), intent, book, now);
            &&& fits ==> refusal is None
            &&& breaks ==> refusal is Some
        }),
{
    let zero = Double::from_bits(ZERO);
    let none = Seq::<Slot>::empty();
    let vacant = Slot::vacant(intent.venue, intent.contract);
    let all = ledger::seated(none, intent.venue, intent.contract);
    assert(all =~= seq![vacant]);
    assert(all.drop_last() =~= none);
    assert(all.last() == vacant);
    assert(ledger::slot_of(none, intent.venue, intent.contract) == vacant);
    let size = intent.size;
    lemma_vacant_range(c, vacant, zero, zero);
    lemma_vacant_range(c, vacant, size, zero);
    lemma_vacant_range(c, vacant, zero, size);
    reveal_with_fuel(gross, 2);
    reveal_with_fuel(cluster_sum, 2);
    reveal_with_fuel(notional, 2);
    reveal_with_fuel(held_notional, 2);
    assert(intent.fault(c) is None);
    lemma_vacant_axes(c, g, intent);
    assert(notional(c, all, all, None) == zero);
    assert(notional(c, all, all, Some(intent.venue)) == zero);
    assert(c.plus(zero, intent.notional(c)) == intent.notional(c));
}

proof fn lemma_vacant_range(c: &Arithmetic, vacant: Slot, buy: Double, sell: Double)
    requires
        c.is_ieee(),
        c.keeps_order(),
        c.rounds_differences(),
        vacant.position is None,
        vacant.working is None,
        buy.is_finite(),
        sell.is_finite(),
        Double::from_bits(ZERO).le(buy),
        Double::from_bits(ZERO).le(sell),
    ensures
        ({
            let (low, high) = vacant.range(c, buy, sell);
            &&& buy.is_zero() ==> high.is_zero()
            &&& !buy.is_zero() ==> high == buy
            &&& sell.is_zero() ==> low.is_zero()
            &&& !sell.is_zero() ==> low == sell.neg()
        }),
{
    reveal(Arithmetic::rounds_differences);
    let zero = Double::from_bits(ZERO);
    assert(c.plus(zero, zero).is_zero());
    assert(c.minus(zero, zero).is_zero());
    let z = c.minus(zero, zero);
    assert(c.minus(z, sell) == c.plus(z, sell.neg()));
    if sell.is_zero() {
        assert(z.same(sell));
    } else {
        assert(!sell.neg().is_zero());
        assert(c.plus(z, sell.neg()) == sell.neg());
    }
}

proof fn lemma_vacant_axes(c: &Arithmetic, g: GateState, intent: OrderIntent)
    requires
        c.is_ieee(),
        c.keeps_order(),
        c.rounds_differences(),
        intent.size.is_finite(),
        Double::from_bits(ZERO).lt(intent.size),
    ensures
        ({
            let none = Seq::<Slot>::empty();
            let a = contract_axis(c, none, intent);
            let b = cluster_axis(c, g, none, intent);
            let d = gross_axis(c, none, intent, Some(intent.venue));
            let e = gross_axis(c, none, intent, None);
            &&& a.projected == intent.size && a.current.is_zero()
            &&& b.projected == intent.size && b.current.is_zero()
            &&& d.projected == intent.size && d.current.is_zero()
            &&& e.projected == intent.size && e.current.is_zero()
        }),
{
    let zero = Double::from_bits(ZERO);
    let none = Seq::<Slot>::empty();
    let vacant = Slot::vacant(intent.venue, intent.contract);
    let all = ledger::seated(none, intent.venue, intent.contract);
    assert(all =~= seq![vacant]);
    assert(all.drop_last() =~= none);
    assert(all.last() == vacant);
    let size = intent.size;
    lemma_vacant_range(c, vacant, zero, zero);
    lemma_vacant_range(c, vacant, size, zero);
    lemma_vacant_range(c, vacant, zero, size);
    reveal_with_fuel(gross, 2);
    reveal_with_fuel(cluster_sum, 2);
    let (eb, es) = if intent.side == Side::Buy {
        (size, zero)
    } else {
        (zero, size)
    };
    let (low, high) = vacant.range(c, eb, es);
    let (l0, h0) = vacant.range(c, zero, zero);
    assert(size.neg().neg() == size);
    assert(high.larger(low.neg()) == size);
    assert(h0.larger(l0.neg()).is_zero());
    let worst = high.larger(low.neg());
    assert(c.plus(zero, size) == size);
    assert(c.plus(zero, h0.larger(l0.neg())).is_zero());
    assert(contract_axis(c, none, intent).projected == size);
    // The cluster turns the range round where the contract pays on a fall.
    assert(c.plus(zero, low) == low || c.plus(zero, low).is_zero() && low.is_zero());
    assert(c.plus(zero, high) == high || c.plus(zero, high).is_zero() && high.is_zero());
    assert(c.plus(zero, high.neg()) == high.neg() || c.plus(zero, high.neg()).is_zero()
        && high.is_zero());
    assert(c.plus(zero, low.neg()) == low.neg() || c.plus(zero, low.neg()).is_zero()
        && low.is_zero());
    assert(c.plus(zero, l0).is_zero() && c.plus(zero, h0).is_zero());
    assert(c.plus(zero, l0.neg()).is_zero() && c.plus(zero, h0.neg()).is_zero());
}

} // verus!
