//! The orders that are live, each with what is left of its reservation.
use vstd::prelude::*;
use crate::double::{Arithmetic, Double};
use crate::types::orders::OrderIntent;

verus! {

/// An order with a reservation, and how much of its size is still reserved.
#[derive(Debug)]
pub struct LiveOrder {
    pub intent: OrderIntent,
    pub left: Double,
}

/// Whether two orders are one and the same: nothing tells them apart.
pub open spec fn same_order(a: OrderIntent, b: OrderIntent) -> bool {
    &&& a.venue == b.venue
    &&& a.contract@ == b.contract@
    &&& a.outcome == b.outcome
    &&& a.side == b.side
    &&& a.price == b.price
    &&& a.size == b.size
    &&& a.order_type == b.order_type
    &&& a.engine == b.engine
    &&& a.created_at == b.created_at
}

/// Where an order first stands among the live ones, or how many there are where it does not.
pub open spec fn place(live: Seq<LiveOrder>, intent: OrderIntent) -> int
    decreases live.len(),
{
    if live.len() == 0 {
        0
    } else {
        let before = place(live.drop_last(), intent);
        if before < live.len() - 1 {
            before
        } else if same_order(live.last().intent, intent) {
            live.len() - 1
        } else {
            live.len() as int
        }
    }
}

/// Whether an order is live.
pub open spec fn is_live(live: Seq<LiveOrder>, intent: OrderIntent) -> bool {
    place(live, intent) < live.len()
}

/// Whether an order works on the side, contract and venue of another.
pub open spec fn beside(order: LiveOrder, intent: OrderIntent) -> bool {
    &&& order.intent.venue == intent.venue
    &&& order.intent.contract@ == intent.contract@
    &&& order.intent.side == intent.side
}

/// Whether any live order works on the side, contract and venue of an order.
pub open spec fn side_works(live: Seq<LiveOrder>, intent: OrderIntent) -> bool {
    exists|i: int| 0 <= i < live.len() && beside(#[trigger] live[i], intent)
}

/// The live orders after up to `wanted` of one was taken off: it keeps the rest, and leaves where
/// there is none.
pub open spec fn cut(
    c: &Arithmetic,
    live: Seq<LiveOrder>,
    intent: OrderIntent,
    wanted: Double,
) -> Seq<LiveOrder> {
    let p = place(live, intent);
    if wanted.lt(live[p].left) {
        live.update(p, LiveOrder { left: c.minus(live[p].left, wanted), ..live[p] })
    } else {
        live.remove(p)
    }
}

fn is_same_order(a: &OrderIntent, b: &OrderIntent) -> (r: bool)
    ensures
        r == same_order(*a, *b),
{
    a.venue == b.venue && a.contract.same(&b.contract) && a.outcome == b.outcome && a.side
        == b.side && a.price == b.price && a.size == b.size && a.order_type == b.order_type
        && a.engine == b.engine && a.created_at == b.created_at
}

/// Finds an order among the live ones.
pub fn find(live: &Vec<LiveOrder>, intent: &OrderIntent) -> (r: Option<usize>)
    ensures
        match r {
            Some(i) => is_live(live@, *intent) && i == place(live@, *intent),
            None => !is_live(live@, *intent),
        },
{
    let mut i: usize = 0;
    while i < live.len()
        invariant
            i <= live.len(),
            place(live@.take(i as int), *intent) == i,
        decreases live.len() - i,
    {
        assert(live@.take(i + 1).drop_last() =~= live@.take(i as int));
        assert(live@.take(i + 1).last() == live@[i as int]);
        if is_same_order(&live[i].intent, intent) {
            proof {
                lemma_place_of_prefix(live@, i + 1, *intent);
            }
            return Some(i);
        }
        i += 1;
    }
    assert(live@.take(i as int) =~= live@);
    None
}

/// Whether any live order works on the side, contract and venue of an order.
pub fn any_beside(live: &Vec<LiveOrder>, intent: &OrderIntent) -> (r: bool)
    ensures
        r == side_works(live@, *intent),
{
    let mut i: usize = 0;
    while i < live.len()
        invariant
            i <= live.len(),
            forall|j: int| 0 <= j < i ==> !beside(#[trigger] live@[j], *intent),
        decreases live.len() - i,
    {
        let other = &live[i].intent;
        if other.venue == intent.venue && other.contract.same(&intent.contract) && other.side
            == intent.side {
            assert(beside(live@[i as int], *intent));
            return true;
        }
        i += 1;
    }
    false
}

/// An order that stands in a prefix stands at the same place in the whole.
pub proof fn lemma_place_of_prefix(live: Seq<LiveOrder>, n: int, intent: OrderIntent)
    requires
        0 <= n <= live.len(),
        is_live(live.take(n), intent),
    ensures
        place(live, intent) == place(live.take(n), intent),
    decreases live.len() - n,
{
    if n < live.len() {
        assert(live.take(n + 1).drop_last() =~= live.take(n));
        lemma_place_of_prefix(live, n + 1, intent);
    } else {
        assert(live.take(n) =~= live);
    }
}

/// The place of a live order holds it, and no place before it does.
pub proof fn lemma_place(live: Seq<LiveOrder>, intent: OrderIntent)
    ensures
        0 <= place(live, intent) <= live.len(),
        is_live(live, intent) ==> same_order(live[place(live, intent)].intent, intent),
        forall|i: int|
            0 <= i < place(live, intent) ==> !same_order((#[trigger] live[i]).intent, intent),
    decreases live.len(),
{
    if live.len() > 0 {
        lemma_place(live.drop_last(), intent);
        assert forall|i: int| 0 <= i < place(live, intent) implies !same_order(
            (#[trigger] live[i]).intent,
            intent,
        ) by {
            if i < live.len() - 1 {
                assert(live.drop_last()[i] == live[i]);
            }
        }
        if place(live.drop_last(), intent) < live.len() - 1 {
            let p = place(live.drop_last(), intent);
            assert(live.drop_last()[p] == live[p]);
        }
    }
}

} // verus!
