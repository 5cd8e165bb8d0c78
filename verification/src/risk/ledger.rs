//! The exposure ledger: one slot for each venue and contract, in order, with the filled
//! position and the orders still working.
use vstd::prelude::*;
use crate::double::{Arithmetic, Double, ONE, ZERO};
use crate::rounding::{
    gap, law_exact_orders, law_powers_are_ordered, lemma_cancel, lemma_difference_near,
    lemma_exact_power, lemma_product_near, lemma_quotient_near, lemma_size, two_to, unit,
};
use crate::text;
use crate::types::contract::CanonicalContractId;
use crate::types::orders::{OrderIntent, Side};
use crate::types::position::Position;
use crate::types::validate;
use crate::types::venue::VenueId;

verus! {

/// The orders of one slot that are live and not filled, each side on its own: a ladder of 40
/// up and 40 down is not zero risk, since only one side may fill.
#[derive(Debug, Clone, Copy, PartialEq, Eq, Structural)]
pub struct Reservation {
    pub buy_qty: Double,
    pub sell_qty: Double,
    pub buy_notional: Double,
    pub sell_notional: Double,
}

impl Reservation {
    /// No live orders.
    pub open spec fn none() -> Reservation {
        let zero = Double::from_bits(ZERO);
        Reservation { buy_qty: zero, sell_qty: zero, buy_notional: zero, sell_notional: zero }
    }

    /// No live orders.
    pub fn empty() -> (r: Reservation)
        ensures
            r == Reservation::none(),
    {
        let zero = Double::from_bits(ZERO);
        Reservation { buy_qty: zero, sell_qty: zero, buy_notional: zero, sell_notional: zero }
    }

    /// Whether neither side has anything live.
    #[verifier::allow_in_spec]
    pub fn is_empty(&self) -> bool
        returns
            self.buy_qty.le(Double::from_bits(ZERO)) && self.sell_qty.le(Double::from_bits(ZERO)),
    {
        self.buy_qty.le(Double::from_bits(ZERO)) && self.sell_qty.le(Double::from_bits(ZERO))
    }

    /// The reservation with an order added to its side.
    pub open spec fn plus(self, c: &Arithmetic, intent: OrderIntent) -> Reservation {
        match intent.side {
            Side::Buy => Reservation {
                buy_qty: c.plus(self.buy_qty, intent.size),
                buy_notional: c.plus(self.buy_notional, intent.notional(c)),
                ..self
            },
            Side::Sell => Reservation {
                sell_qty: c.plus(self.sell_qty, intent.size),
                sell_notional: c.plus(self.sell_notional, intent.notional(c)),
                ..self
            },
        }
    }

    /// Adds an order to its side.
    pub fn add_order(&self, c: &Arithmetic, intent: &OrderIntent) -> (r: Reservation)
        ensures
            r == self.plus(c, *intent),
    {
        match intent.side {
            Side::Buy => Reservation {
                buy_qty: c.plus(self.buy_qty, intent.size),
                buy_notional: c.plus(self.buy_notional, intent.risk_notional(c)),
                sell_qty: self.sell_qty,
                sell_notional: self.sell_notional,
            },
            Side::Sell => Reservation {
                sell_qty: c.plus(self.sell_qty, intent.size),
                sell_notional: c.plus(self.sell_notional, intent.risk_notional(c)),
                buy_qty: self.buy_qty,
                buy_notional: self.buy_notional,
            },
        }
    }

    /// The notional of one unit of an order.
    pub open spec fn unit_notional(c: &Arithmetic, intent: OrderIntent) -> Double {
        if intent.size.gt(Double::from_bits(ZERO)) {
            c.over(intent.notional(c), intent.size)
        } else {
            Double::from_bits(ZERO)
        }
    }

    /// The reservation with up to `qty` taken off the side of an order.
    pub open spec fn less(self, c: &Arithmetic, intent: OrderIntent, qty: Double) -> Reservation {
        let zero = Double::from_bits(ZERO);
        let unit = Reservation::unit_notional(c, intent);
        match intent.side {
            Side::Buy => {
                let off = qty.larger(zero).smaller(self.buy_qty);
                Reservation {
                    buy_qty: c.minus(self.buy_qty, off),
                    buy_notional: c.minus(self.buy_notional, c.times(unit, off)).larger(zero),
                    ..self
                }
            },
            Side::Sell => {
                let off = qty.larger(zero).smaller(self.sell_qty);
                Reservation {
                    sell_qty: c.minus(self.sell_qty, off),
                    sell_notional: c.minus(self.sell_notional, c.times(unit, off)).larger(zero),
                    ..self
                }
            },
        }
    }

    /// The reservation with nothing on a side.
    pub open spec fn without(self, side: Side) -> Reservation {
        let zero = Double::from_bits(ZERO);
        match side {
            Side::Buy => Reservation { buy_qty: zero, buy_notional: zero, ..self },
            Side::Sell => Reservation { sell_qty: zero, sell_notional: zero, ..self },
        }
    }

    /// Clears a side.
    pub fn clear(&self, side: Side) -> (r: Reservation)
        ensures
            r == self.without(side),
    {
        let zero = Double::from_bits(ZERO);
        match side {
            Side::Buy => Reservation {
                buy_qty: zero,
                buy_notional: zero,
                sell_qty: self.sell_qty,
                sell_notional: self.sell_notional,
            },
            Side::Sell => Reservation {
                sell_qty: zero,
                sell_notional: zero,
                buy_qty: self.buy_qty,
                buy_notional: self.buy_notional,
            },
        }
    }

    /// Takes up to `qty` off the side of an order.
    pub fn take_off(&self, c: &Arithmetic, intent: &OrderIntent, qty: Double) -> (r: Reservation)
        ensures
            r == self.less(c, *intent, qty),
    {
        let zero = Double::from_bits(ZERO);
        let wanted = qty.larger(zero);
        let unit = if intent.size.gt(zero) {
            c.over(intent.risk_notional(c), intent.size)
        } else {
            zero
        };
        match intent.side {
            Side::Buy => {
                let off = wanted.smaller(self.buy_qty);
                Reservation {
                    buy_qty: c.minus(self.buy_qty, off),
                    buy_notional: c.minus(self.buy_notional, c.times(unit, off)).larger(zero),
                    sell_qty: self.sell_qty,
                    sell_notional: self.sell_notional,
                }
            },
            Side::Sell => {
                let off = wanted.smaller(self.sell_qty);
                Reservation {
                    sell_qty: c.minus(self.sell_qty, off),
                    sell_notional: c.minus(self.sell_notional, c.times(unit, off)).larger(zero),
                    buy_qty: self.buy_qty,
                    buy_notional: self.buy_notional,
                }
            },
        }
    }
}

/// One venue and contract: what is held and what is working.
#[derive(Debug)]
pub struct Slot {
    pub venue: VenueId,
    pub contract: CanonicalContractId,
    pub position: Option<Position>,
    pub working: Option<Reservation>,
}

impl Clone for Slot {
    fn clone(&self) -> (r: Self)
        ensures
            r == *self,
    {
        Slot {
            venue: self.venue,
            contract: self.contract.clone(),
            position: match &self.position {
                Some(p) => Some(p.clone()),
                None => None,
            },
            working: self.working,
        }
    }
}

impl Slot {
    /// A slot that holds nothing.
    pub open spec fn vacant(venue: VenueId, contract: CanonicalContractId) -> Slot {
        Slot { venue, contract, position: None, working: None }
    }

    /// Whether the slot is the one of a venue and contract.
    pub open spec fn is_at(self, venue: VenueId, contract: Seq<char>) -> bool {
        self.venue == venue && self.contract@ == contract
    }

    /// Whether the slot stands before a venue and contract.
    pub open spec fn precedes(self, venue: VenueId, contract: Seq<char>) -> bool {
        self.venue.rank() < venue.rank() || (self.venue == venue && text::before(
            self.contract@,
            contract,
        ))
    }

    /// The filled quantity.
    pub open spec fn qty(self) -> Double {
        match self.position {
            Some(p) => p.qty,
            None => Double::from_bits(ZERO),
        }
    }

    /// The live orders.
    pub open spec fn live(self) -> Reservation {
        match self.working {
            Some(r) => r,
            None => Reservation::none(),
        }
    }

    /// The position, flat where there is none.
    pub open spec fn held(self) -> Position {
        match self.position {
            Some(p) => p,
            None => Position::flat(self.venue, self.contract),
        }
    }

    /// Whether the position is of this venue and contract.
    pub open spec fn is_sound(self) -> bool {
        match self.position {
            Some(p) => p.venue == self.venue && p.contract@ == self.contract@,
            None => true,
        }
    }

    /// Lowest and highest quantity that the slot can end at, once every live order and an
    /// extra one are either filled or not.
    pub open spec fn range(self, c: &Arithmetic, extra_buy: Double, extra_sell: Double) -> (
        Double,
        Double,
    ) {
        (
            c.minus(c.minus(self.qty(), self.live().sell_qty), extra_sell),
            c.plus(c.plus(self.qty(), self.live().buy_qty), extra_buy),
        )
    }

    /// The larger magnitude of the two ends of the range.
    pub open spec fn worst_case(
        self,
        c: &Arithmetic,
        extra_buy: Double,
        extra_sell: Double,
    ) -> Double {
        let (low, high) = self.range(c, extra_buy, extra_sell);
        high.larger(low.neg())
    }

    /// The two ends of the range.
    pub fn ends(&self, c: &Arithmetic, extra_buy: Double, extra_sell: Double) -> (r: (
        Double,
        Double,
    ))
        ensures
            r == self.range(c, extra_buy, extra_sell),
    {
        let filled = match &self.position {
            Some(p) => p.qty,
            None => Double::from_bits(ZERO),
        };
        let live = match self.working {
            Some(r) => r,
            None => Reservation::empty(),
        };
        let low = c.minus(c.minus(filled, live.sell_qty), extra_sell);
        let high = c.plus(c.plus(filled, live.buy_qty), extra_buy);
        (low, high)
    }

    /// The worst case of the slot.
    pub fn worst(&self, c: &Arithmetic, extra_buy: Double, extra_sell: Double) -> (r: Double)
        ensures
            r == self.worst_case(c, extra_buy, extra_sell),
    {
        let (low, high) = self.ends(c, extra_buy, extra_sell);
        high.larger(low.neg())
    }

    /// Whether the slot is the one of a venue and contract.
    pub fn stands_at(&self, venue: VenueId, contract: &CanonicalContractId) -> (r: bool)
        ensures
            r == self.is_at(venue, contract@),
    {
        self.venue == venue && self.contract.same(contract)
    }
}

/// Whether slots stand in order, each venue and contract once, each with its own position.
pub open spec fn in_order(slots: Seq<Slot>) -> bool {
    &&& forall|i: int, j: int|
        0 <= i < j < slots.len() ==> (#[trigger] slots[i]).precedes(
            (#[trigger] slots[j]).venue,
            slots[j].contract@,
        )
    &&& forall|i: int| 0 <= i < slots.len() ==> (#[trigger] slots[i]).is_sound()
}

/// How many slots stand before a venue and contract.
pub open spec fn place(slots: Seq<Slot>, venue: VenueId, contract: Seq<char>) -> int
    decreases slots.len(),
{
    if slots.len() == 0 || slots.last().precedes(venue, contract) {
        slots.len() as int
    } else {
        place(slots.drop_last(), venue, contract)
    }
}

/// Whether a venue and contract have a slot.
pub open spec fn has_slot(slots: Seq<Slot>, venue: VenueId, contract: Seq<char>) -> bool {
    let p = place(slots, venue, contract);
    p < slots.len() && slots[p].is_at(venue, contract)
}

/// The slots with one for the venue and contract, vacant where there was none.
pub open spec fn seated(slots: Seq<Slot>, venue: VenueId, contract: CanonicalContractId) -> Seq<
    Slot,
> {
    if has_slot(slots, venue, contract@) {
        slots
    } else {
        slots.insert(place(slots, venue, contract@), Slot::vacant(venue, contract))
    }
}

/// The slot of a venue and contract, vacant where there is none.
pub open spec fn slot_of(slots: Seq<Slot>, venue: VenueId, contract: CanonicalContractId) -> Slot {
    seated(slots, venue, contract)[place(slots, venue, contract@)]
}

/// The slots with the one of a venue and contract replaced.
pub open spec fn with_slot(slots: Seq<Slot>, slot: Slot) -> Seq<Slot> {
    seated(slots, slot.venue, slot.contract).update(
        place(slots, slot.venue, slot.contract@),
        slot,
    )
}

proof fn lemma_precedes(a: Slot, venue: VenueId, contract: Seq<char>)
    ensures
        a.is_at(venue, contract) ==> !a.precedes(venue, contract),
        !a.is_at(venue, contract) && !a.precedes(venue, contract) ==> venue.rank()
            < a.venue.rank() || (venue == a.venue && text::before(contract, a.contract@)),
{
    text::lemma_before_total(a.contract@, contract);
    text::lemma_before_total(contract, contract);
}

proof fn lemma_precedes_transitive(a: Slot, b: Slot, venue: VenueId, contract: Seq<char>)
    requires
        a.precedes(b.venue, b.contract@),
        b.precedes(venue, contract),
    ensures
        a.precedes(venue, contract),
{
    if a.venue == b.venue && b.venue == venue {
        text::lemma_before_transitive(a.contract@, b.contract@, contract);
    }
}

/// What stands on either side of a place.
pub proof fn lemma_place(slots: Seq<Slot>, venue: VenueId, contract: Seq<char>)
    requires
        in_order(slots),
    ensures
        0 <= place(slots, venue, contract) <= slots.len(),
        forall|i: int|
            0 <= i < place(slots, venue, contract) ==> (#[trigger] slots[i]).precedes(
                venue,
                contract,
            ),
        forall|i: int|
            place(slots, venue, contract) <= i < slots.len() ==> !(#[trigger] slots[i]).precedes(
                venue,
                contract,
            ),
        forall|i: int|
            0 <= i < slots.len() && (#[trigger] slots[i]).is_at(venue, contract) ==> i == place(
                slots,
                venue,
                contract,
            ),
    decreases slots.len(),
{
    if slots.len() > 0 {
        let rest = slots.drop_last();
        assert(in_order(rest)) by {
            assert forall|i: int, j: int| 0 <= i < j < rest.len() implies (
            #[trigger] rest[i]).precedes((#[trigger] rest[j]).venue, rest[j].contract@) by {
                assert(slots[i].precedes(slots[j].venue, slots[j].contract@));
            }
            assert forall|i: int| 0 <= i < rest.len() implies (#[trigger] rest[i]).is_sound() by {
                assert(slots[i].is_sound());
            }
        }
        lemma_place(rest, venue, contract);
        let last = slots.last();
        let n = slots.len() - 1;
        if last.precedes(venue, contract) {
            assert forall|i: int| 0 <= i < slots.len() implies (#[trigger] slots[i]).precedes(
                venue,
                contract,
            ) by {
                if i < n {
                    assert(slots[i].precedes(slots[n].venue, slots[n].contract@));
                    lemma_precedes_transitive(slots[i], last, venue, contract);
                }
            }
            assert forall|i: int| 0 <= i < slots.len() implies !(#[trigger] slots[i]).is_at(
                venue,
                contract,
            ) by {
                lemma_precedes(slots[i], venue, contract);
            }
        } else {
            let p = place(rest, venue, contract);
            assert forall|i: int| 0 <= i < p implies (#[trigger] slots[i]).precedes(
                venue,
                contract,
            ) by {
                assert(rest[i].precedes(venue, contract));
            }
            assert forall|i: int| p <= i < slots.len() implies !(#[trigger] slots[i]).precedes(
                venue,
                contract,
            ) by {
                if i < n {
                    assert(!rest[i].precedes(venue, contract));
                }
            }
            assert forall|i: int|
                0 <= i < slots.len() && (#[trigger] slots[i]).is_at(
                    venue,
                    contract,
                ) implies i == p by {
                if i < n {
                    assert(rest[i].is_at(venue, contract));
                } else if p < n {
                    assert(slots[p].precedes(slots[n].venue, slots[n].contract@));
                    assert(!rest[p].precedes(venue, contract));
                }
            }
        }
    }
}

/// Seating a venue and contract keeps the order and gives it its slot.
pub proof fn lemma_seated(slots: Seq<Slot>, venue: VenueId, contract: CanonicalContractId)
    requires
        in_order(slots),
    ensures
        in_order(seated(slots, venue, contract)),
        0 <= place(slots, venue, contract@) < seated(slots, venue, contract).len(),
        slot_of(slots, venue, contract).is_at(venue, contract@),
        place(seated(slots, venue, contract), venue, contract@) == place(slots, venue, contract@),
{
    lemma_place(slots, venue, contract@);
    let p = place(slots, venue, contract@);
    let after = seated(slots, venue, contract);
    if !has_slot(slots, venue, contract@) {
        let fresh = Slot::vacant(venue, contract);
        assert forall|i: int, j: int| 0 <= i < j < after.len() implies (
        #[trigger] after[i]).precedes((#[trigger] after[j]).venue, after[j].contract@) by {
            if j < p {
                assert(slots[i].precedes(slots[j].venue, slots[j].contract@));
            } else if j == p {
                assert(slots[i].precedes(venue, contract@));
            } else if i < p {
                assert(slots[i].precedes(slots[j - 1].venue, slots[j - 1].contract@));
            } else if i == p {
                assert(!slots[j - 1].precedes(venue, contract@));
                assert(!slots[j - 1].is_at(venue, contract@));
                lemma_precedes(slots[j - 1], venue, contract@);
            } else {
                assert(slots[i - 1].precedes(slots[j - 1].venue, slots[j - 1].contract@));
            }
        }
        assert forall|i: int| 0 <= i < after.len() implies (#[trigger] after[i]).is_sound() by {
            if i < p {
                assert(slots[i].is_sound());
            } else if i > p {
                assert(slots[i - 1].is_sound());
            }
        }
    }
    lemma_place(after, venue, contract@);
    assert(after[p].is_at(venue, contract@));
}

/// Replacing a slot keeps the order.
pub proof fn lemma_with_slot(slots: Seq<Slot>, slot: Slot)
    requires
        in_order(slots),
        slot.is_sound(),
    ensures
        in_order(with_slot(slots, slot)),
{
    lemma_seated(slots, slot.venue, slot.contract);
    let before = seated(slots, slot.venue, slot.contract);
    let p = place(slots, slot.venue, slot.contract@);
    let after = with_slot(slots, slot);
    assert forall|i: int, j: int| 0 <= i < j < after.len() implies (#[trigger] after[i]).precedes(
        (#[trigger] after[j]).venue,
        after[j].contract@,
    ) by {
        assert(before[i].precedes(before[j].venue, before[j].contract@));
        assert(before[p].is_at(slot.venue, slot.contract@));
    }
    assert forall|i: int| 0 <= i < after.len() implies (#[trigger] after[i]).is_sound() by {
        assert(before[i].is_sound());
    }
}

/// Finds the place of a venue and contract.
pub fn find_place(slots: &Vec<Slot>, venue: VenueId, contract: &CanonicalContractId) -> (r: usize)
    ensures
        r == place(slots@, venue, contract@),
        r <= slots.len(),
{
    let mut i: usize = slots.len();
    assert(slots@.take(i as int) == slots@);
    while i > 0
        invariant
            i <= slots.len(),
            place(slots@, venue, contract@) == place(slots@.take(i as int), venue, contract@),
        decreases i,
    {
        assert(slots@.take(i as int).drop_last() == slots@.take(i - 1));
        let s = &slots[i - 1];
        let before = s.venue.precedes(venue) || (s.venue == venue && text::text_before(
            s.contract.0.as_str(),
            contract.0.as_str(),
        ));
        assert(slots@.take(i as int).last() == slots@[i - 1]);
        if before {
            return i;
        }
        i -= 1;
    }
    i
}

/// Gives a venue and contract a slot, and says where it is.
pub fn seat(slots: &mut Vec<Slot>, venue: VenueId, contract: &CanonicalContractId) -> (r: usize)
    requires
        in_order(old(slots)@),
    ensures
        final(slots)@ == seated(old(slots)@, venue, *contract),
        r == place(old(slots)@, venue, contract@),
        r < final(slots).len(),
        in_order(final(slots)@),
        final(slots)@[r as int].is_at(venue, contract@),
{
    proof {
        lemma_seated(slots@, venue, *contract);
    }
    let p: usize = find_place(slots, venue, contract);
    if p < slots.len() && slots[p].stands_at(venue, contract) {
        return p;
    }
    slots.insert(
        p,
        Slot { venue, contract: contract.clone(), position: None, working: None },
    );
    p
}

/// Finds the slot of a venue and contract, if it has one.
pub fn find_slot(slots: &Vec<Slot>, venue: VenueId, contract: &CanonicalContractId) -> (r: Option<
    usize,
>)
    ensures
        match r {
            Some(i) => has_slot(slots@, venue, contract@) && i == place(slots@, venue, contract@)
                && i < slots.len(),
            None => !has_slot(slots@, venue, contract@),
        },
{
    let p: usize = find_place(slots, venue, contract);
    if p < slots.len() && slots[p].stands_at(venue, contract) {
        Some(p)
    } else {
        None
    }
}

/// A copy of the slots.
pub fn copy_slots(slots: &Vec<Slot>) -> (r: Vec<Slot>)
    ensures
        r@ == slots@,
{
    let mut out: Vec<Slot> = Vec::new();
    let mut i: usize = 0;
    while i < slots.len()
        invariant
            i <= slots.len(),
            out@ == slots@.take(i as int),
        decreases slots.len() - i,
    {
        out.push(slots[i].clone());
        i += 1;
        assert(slots@.take(i as int) == slots@.take(i - 1).push(slots@[i - 1]));
    }
    assert(slots@.take(i as int) == slots@);
    out
}

/// The slots, kept in order.
#[derive(Debug)]
pub struct Ledger {
    slots: Vec<Slot>,
}

impl View for Ledger {
    type V = Seq<Slot>;

    closed spec fn view(&self) -> Seq<Slot> {
        self.slots@
    }
}

impl Ledger {
    #[verifier::type_invariant]
    spec fn inv(&self) -> bool {
        in_order(self.slots@)
    }

    /// No slots.
    pub fn new() -> (r: Ledger)
        ensures
            r@ == Seq::<Slot>::empty(),
    {
        Ledger { slots: Vec::new() }
    }

    /// The slots, in order.
    pub fn slots(&self) -> (r: &Vec<Slot>)
        ensures
            r@ == self@,
            in_order(self@),
    {
        proof {
            use_type_invariant(self);
        }
        &self.slots
    }

    /// The slot of a venue and contract, vacant where there is none.
    pub fn slot(&self, venue: VenueId, contract: &CanonicalContractId) -> (r: Slot)
        ensures
            r == slot_of(self@, venue, *contract),
            r.is_at(venue, contract@),
            r.is_sound(),
            in_order(self@),
    {
        proof {
            use_type_invariant(self);
            lemma_seated(self.slots@, venue, *contract);
        }
        match find_slot(&self.slots, venue, contract) {
            Some(i) => {
                assert(self.slots@[i as int].is_sound());
                self.slots[i].clone()
            },
            None => {
                proof {
                    lemma_place(self.slots@, venue, contract@);
                    assert(slot_of(self@, venue, *contract) == Slot::vacant(venue, *contract));
                }
                Slot { venue, contract: contract.clone(), position: None, working: None }
            },
        }
    }

    /// A copy of the ledger.
    pub fn copy(&self) -> (r: Ledger)
        ensures
            r@ == self@,
    {
        proof {
            use_type_invariant(self);
        }
        Ledger { slots: copy_slots(&self.slots) }
    }

    /// Puts a slot in place of the one of its venue and contract.
    pub fn put(&mut self, slot: Slot)
        requires
            slot.is_sound(),
        ensures
            final(self)@ == with_slot(old(self)@, slot),
    {
        proof {
            use_type_invariant(&*self);
            lemma_with_slot(self.slots@, slot);
        }
        let mut slots: Vec<Slot> = Vec::new();
        std::mem::swap(&mut slots, &mut self.slots);
        let i: usize = seat(&mut slots, slot.venue, &slot.contract);
        slots.set(i, slot);
        self.slots = slots;
    }
}

/// The money at risk in a position: what a long loses at NO, what a short loses at YES.
pub open spec fn position_notional(c: &Arithmetic, p: Position) -> Double {
    if p.qty.ge(Double::from_bits(ZERO)) {
        c.times(p.qty, p.avg_price)
    } else {
        c.times(p.qty.neg(), c.minus(Double::from_bits(ONE), p.avg_price))
    }
}

/// The money at risk in a position.
pub fn position_risk_notional(c: &Arithmetic, p: &Position) -> (r: Double)
    ensures
        r == position_notional(c, *p),
{
    if p.qty.ge(Double::from_bits(ZERO)) {
        c.times(p.qty, p.avg_price)
    } else {
        c.times(p.qty.neg(), c.minus(Double::from_bits(ONE), p.avg_price))
    }
}

/// Putting a slot in place gives its venue and contract that slot, and leaves every other as it
/// was.
pub proof fn law_put_changes_one_slot(
    slots: Seq<Slot>,
    slot: Slot,
    venue: VenueId,
    contract: CanonicalContractId,
)
    requires
        in_order(slots),
        slot.is_sound(),
    ensures
        ({
            let after = slot_of(with_slot(slots, slot), venue, contract);
            if slot.is_at(venue, contract@) {
                after == slot
            } else {
                after == slot_of(slots, venue, contract)
            }
        }),
{
    let after = with_slot(slots, slot);
    let p = place(slots, slot.venue, slot.contract@);
    lemma_with_slot(slots, slot);
    lemma_seated(slots, slot.venue, slot.contract);
    lemma_place(slots, slot.venue, slot.contract@);
    lemma_place(slots, venue, contract@);
    lemma_place(after, venue, contract@);
    let seats = seated(slots, slot.venue, slot.contract);
    assert(after[p] == slot);
    if slot.is_at(venue, contract@) {
        assert(after[p].is_at(venue, contract@));
    } else {
        let q = place(slots, venue, contract@);
        let fresh = !has_slot(slots, slot.venue, slot.contract@);
        if has_slot(slots, venue, contract@) {
            let k = if fresh && q >= p {
                q + 1
            } else {
                q
            };
            assert(seats[k] == slots[q]);
            assert(k != p);
            assert(after[k] == slots[q]);
            assert(after[k].is_at(venue, contract@));
        } else {
            let k = place(after, venue, contract@);
            if has_slot(after, venue, contract@) {
                assert(after[k].is_at(venue, contract@));
                assert(k != p);
                let q2 = if fresh && k > p {
                    k - 1
                } else {
                    k
                };
                assert(after[k] == slots[q2]);
                assert(slots[q2].is_at(venue, contract@));
                assert(false);
            }
            assert(slot_of(after, venue, contract) == Slot::vacant(venue, contract));
            assert(slot_of(slots, venue, contract) == Slot::vacant(venue, contract));
        }
    }
}

/// A quote on both sides is charged its worst case and not its sum: the charge is no smaller than
/// either end of what can happen, and it is one of them.
pub proof fn law_worst_case_covers_both_ends(
    c: &Arithmetic,
    slot: Slot,
    extra_buy: Double,
    extra_sell: Double,
)
    requires
        !slot.range(c, extra_buy, extra_sell).0.is_nan(),
        !slot.range(c, extra_buy, extra_sell).1.is_nan(),
    ensures
        ({
            let (low, high) = slot.range(c, extra_buy, extra_sell);
            let worst = slot.worst_case(c, extra_buy, extra_sell);
            &&& high.le(worst)
            &&& low.neg().le(worst)
            &&& worst == high || worst == low.neg()
        }),
{
}

/// A partial release frees what it releases: the side's quantity falls by it, its money at risk by
/// what that quantity costs at the order's price, up to roundings, and the other side keeps both.
pub proof fn law_partial_release_frees_its_share(
    c: &Arithmetic,
    r: Reservation,
    intent: OrderIntent,
    qty: Double,
)
    requires
        c.is_accurate(),
        validate::is_probability(intent.price),
        Double::from_bits(ONE).le(intent.size),
        intent.size.le(two_to(10)),
        Double::from_bits(ZERO).le(qty),
        ({
            let (held, money) = if intent.side == Side::Buy {
                (r.buy_qty, r.buy_notional)
            } else {
                (r.sell_qty, r.sell_notional)
            };
            &&& qty.le(held)
            &&& held.le(two_to(10))
            &&& Double::from_bits(ZERO).le(money)
            &&& money.le(two_to(10))
        }),
    ensures
        ({
            let after = r.less(c, intent, qty);
            let paid = if intent.side == Side::Buy {
                intent.price.exact()
            } else {
                unit() - intent.price.exact()
            };
            let (held, money) = if intent.side == Side::Buy {
                (r.buy_qty.exact(), r.buy_notional.exact())
            } else {
                (r.sell_qty.exact(), r.sell_notional.exact())
            };
            let (rest, left) = if intent.side == Side::Buy {
                (after.buy_qty.exact(), after.buy_notional.exact())
            } else {
                (after.sell_qty.exact(), after.sell_notional.exact())
            };
            let cost = qty.exact() * paid;
            let e = 8 * two_to(-33).exact();
            &&& gap(rest, held - qty.exact()) <= e
            &&& cost + e * unit() <= money * unit() ==> gap(left * unit(), money * unit() - cost)
                <= e * unit()
            &&& left >= 0
            &&& intent.side == Side::Buy ==> after.sell_qty == r.sell_qty && after.sell_notional
                == r.sell_notional
            &&& intent.side == Side::Sell ==> after.buy_qty == r.buy_qty && after.buy_notional
                == r.buy_notional
        }),
{
    let zero = Double::from_bits(ZERO);
    let one = Double::from_bits(ONE);
    let (u, most) = (unit(), two_to(10).exact());
    lemma_exact_power(-53);
    lemma_exact_power(-43);
    lemma_exact_power(-33);
    lemma_exact_power(0);
    lemma_exact_power(10);
    lemma_exact_power(1);
    lemma_exact_power(11);
    lemma_exact_power(12);
    vstd::arithmetic::power2::lemma2_to64();
    vstd::arithmetic::power2::lemma_pow2_adds(1, 1074);
    vstd::arithmetic::power2::lemma_pow2_adds(1, 1084);
    vstd::arithmetic::power2::lemma_pow2_adds(2, 1084);
    law_powers_are_ordered(0, 10);
    law_powers_are_ordered(0, 0);
    law_exact_orders(zero, intent.price);
    law_exact_orders(intent.price, one);
    law_exact_orders(one, intent.size);
    law_exact_orders(intent.size, two_to(10));
    law_exact_orders(intent.size, zero);
    law_exact_orders(zero, zero);
    law_exact_orders(zero, qty);
    lemma_difference_near(c, one, intent.price, 0);
    let rest = c.minus(one, intent.price);
    lemma_size(rest, one);
    let (factor, paid) = if intent.side == Side::Buy {
        (intent.price, intent.price.exact())
    } else {
        (rest, u - intent.price.exact())
    };
    let (held, money) = if intent.side == Side::Buy {
        (r.buy_qty, r.buy_notional)
    } else {
        (r.sell_qty, r.sell_notional)
    };
    law_exact_orders(qty, held);
    law_exact_orders(held, two_to(10));
    law_exact_orders(zero, money);
    law_exact_orders(money, two_to(10));
    let (n, f) = (intent.size.exact(), factor.exact());
    assert(gap(n * f, 0) <= most * u) by (nonlinear_arith)
        requires
            0 <= n <= most,
            -u <= f <= u,
    ;
    lemma_product_near(c, intent.size, factor, 10);
    let total = c.times(intent.size, factor);
    assert(total == intent.notional(c));
    lemma_size(total, two_to(10));
    let (t, g) = (total.exact(), two_to(-43).exact());
    // The price of one unit.
    law_powers_are_ordered(-43, -1);
    law_exact_orders(two_to(-43), two_to(-1));
    lemma_exact_power(-1);
    assert(gap(t * u, 0) <= (2 * u) * gap(n, 0)) by (nonlinear_arith)
        requires
            gap(t * u, n * f) <= g * u,
            -u <= f <= u,
            n >= u,
            g <= u,
            u > 0,
    ;
    lemma_quotient_near(c, total, intent.size, 1);
    let each = c.over(total, intent.size);
    let (q, d) = (each.exact(), two_to(-52).exact());
    lemma_exact_power(-52);
    law_powers_are_ordered(-52, -43);
    law_exact_orders(two_to(-52), two_to(-43));
    lemma_unit_price(q, t, n, f, u, g, d);
    lemma_size(each, two_to(1));
    let k = qty.exact();
    assert(qty.larger(zero).smaller(held) == qty || qty.is_zero());
    let off = qty.larger(zero).smaller(held);
    assert(off.exact() == k) by {
        if qty.is_zero() {
            law_exact_orders(qty, qty);
            law_exact_orders(off, off);
            assert(off.is_zero() || off == qty || off == held);
        }
    }
    lemma_difference_near(c, held, off, 10);
    assert(gap(q * k, 0) <= (2 * most) * u) by (nonlinear_arith)
        requires
            -2 * u <= q <= 2 * u,
            0 <= k <= most,
    ;
    lemma_exact_power(-42);
    lemma_product_near(c, each, off, 11);
    let cut = c.times(each, off);
    lemma_size(cut, two_to(11));
    lemma_difference_near(c, money, cut, 12);
    let left = c.minus(money, cut);
    law_exact_orders(left, zero);
    law_exact_orders(zero, left);
    lemma_exact_power(-41);
    law_powers_are_ordered(-41, -33);
    law_exact_orders(two_to(-41), two_to(-33));
    law_powers_are_ordered(-42, -33);
    law_exact_orders(two_to(-42), two_to(-33));
    let (x, m, y, h) = (cut.exact(), money.exact(), left.exact(), two_to(-33).exact());
    vstd::arithmetic::power2::lemma_pow2_adds(1084, 1031);
    vstd::arithmetic::power2::lemma_pow2_adds(1041, 1074);
    assert(most * g == h * u);
    assert(gap(q * k, f * k) <= 2 * (h * u)) by (nonlinear_arith)
        requires
            gap(q, f) <= 2 * g,
            0 <= k <= most,
            most * g == h * u,
            g > 0,
    ;
    let b = two_to(-53).exact();
    law_powers_are_ordered(-53, -43);
    law_exact_orders(two_to(-53), two_to(-43));
    assert(gap(f * k, k * paid) <= h * u) by (nonlinear_arith)
        requires
            gap(f, paid) <= b,
            b <= g,
            0 <= k <= most,
            most * g == h * u,
            b > 0,
    ;
    let near = two_to(-42).exact();
    assert(near * u <= h * u) by (nonlinear_arith)
        requires
            near <= h,
            u > 0,
    ;
    let cost = k * paid;
    assert(gap(x * u, cost) <= 4 * (h * u));
    assert(gap(y * u, m * u - x * u) <= h * u) by (nonlinear_arith)
        requires
            gap(y, m - x) <= h,
            u > 0,
    ;
    assert(8 * h * u == 8 * (h * u) && h * u > 0) by (nonlinear_arith)
        requires
            h > 0,
            u > 0,
    ;
    if cost + 8 * h * u <= m * u {
        assert(y >= 0) by (nonlinear_arith)
            requires
                gap(y * u, m * u - x * u) <= h * u,
                gap(x * u, cost) <= 4 * (h * u),
                cost + 8 * (h * u) <= m * u,
                h * u > 0,
                u > 0,
        ;
    }
}

proof fn lemma_unit_price(q: int, t: int, n: int, f: int, u: int, g: int, d: int)
    requires
        u > 0,
        n >= u,
        0 < d <= g,
        gap(t * u, n * f) <= g * u,
        gap(q * n, t * u) <= d * gap(n, 0),
    ensures
        gap(q, f) <= 2 * g,
{
    assert(g * u <= g * n) by (nonlinear_arith)
        requires
            n >= u,
            g > 0,
    ;
    assert(d * n <= g * n) by (nonlinear_arith)
        requires
            d <= g,
            n > 0,
    ;
    assert(n * f == f * n) by (nonlinear_arith);
    assert(2 * g * n == 2 * (g * n)) by (nonlinear_arith);
    lemma_cancel(q, f, 2 * g, n);
}

} // verus!
