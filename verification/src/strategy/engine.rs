//! What an engine may see, and the engines run side by side.
use vstd::prelude::*;
use crate::book::{BookState, ConsolidatedBook};
use crate::double::{Arithmetic, Double};
use crate::keyed::VenueMap;
use crate::strategy::calibration::{CalibrationState, Calibrator};
use crate::strategy::engines::market_making::MarketMakingEngine;
use crate::strategy::engines::sniping::LiquiditySnipingEngine;
use crate::strategy::engines::stat_arb::StatArbEngine;
use crate::types::alpha::{FairValue, FairView};
use crate::types::contract::CanonicalContractId;
use crate::types::orders::{EngineId, OrderIntent, OrderType, Outcome, Side};
use crate::types::time::Timestamp;
use crate::types::venue::VenueId;

verus! {

/// Everything an engine may see when it decides. There is no field for another party's orders
/// or flow: an engine cannot condition on what it cannot see.
#[derive(Clone, Copy)]
pub struct StrategyInput<'a> {
    pub contract: &'a CanonicalContractId,
    pub fair_value: &'a FairValue,
    pub book: &'a ConsolidatedBook,
    /// The net position in the contract, by venue.
    pub inventory: &'a VenueMap<Double>,
    pub calibration: &'a Calibrator,
    pub now: Timestamp,
}

/// What an engine sees, as plain values.
pub struct Snapshot {
    pub contract: CanonicalContractId,
    pub fair_value: FairView,
    pub book: BookState,
    pub inventory: VenueMap<Double>,
    pub calibration: CalibrationState,
    pub now: Timestamp,
}

impl<'a> View for StrategyInput<'a> {
    type V = Snapshot;

    open spec fn view(&self) -> Snapshot {
        Snapshot {
            contract: *self.contract,
            fair_value: self.fair_value@,
            book: self.book@,
            inventory: *self.inventory,
            calibration: self.calibration@,
            now: self.now,
        }
    }
}

/// One way of trading.
pub trait StrategyEngine {
    /// Which engine it is.
    spec fn identity(&self) -> EngineId;

    /// The orders that the engine proposes on a snapshot.
    spec fn proposals(&self, c: &Arithmetic, seen: Snapshot) -> Seq<OrderIntent>;

    /// Which engine it is.
    fn id(&self) -> (r: EngineId)
        ensures
            r == self.identity(),
    ;

    /// Proposes orders for this tick. None of them has cleared the risk gate yet.
    fn evaluate(&self, c: &Arithmetic, input: &StrategyInput) -> (r: Vec<OrderIntent>)
        ensures
            r@ == self.proposals(c, input@),
    ;
}

/// One of the engines at hand.
#[derive(Debug)]
pub enum Engine {
    Sniping(LiquiditySnipingEngine),
    StatArb(StatArbEngine),
    MarketMaking(MarketMakingEngine),
}

impl StrategyEngine for Engine {
    open spec fn identity(&self) -> EngineId {
        match self {
            Engine::Sniping(e) => e.identity(),
            Engine::StatArb(e) => e.identity(),
            Engine::MarketMaking(e) => e.identity(),
        }
    }

    open spec fn proposals(&self, c: &Arithmetic, seen: Snapshot) -> Seq<OrderIntent> {
        match self {
            Engine::Sniping(e) => e.proposals(c, seen),
            Engine::StatArb(e) => e.proposals(c, seen),
            Engine::MarketMaking(e) => e.proposals(c, seen),
        }
    }

    fn id(&self) -> (r: EngineId) {
        match self {
            Engine::Sniping(e) => e.id(),
            Engine::StatArb(e) => e.id(),
            Engine::MarketMaking(e) => e.id(),
        }
    }

    fn evaluate(&self, c: &Arithmetic, input: &StrategyInput) -> (r: Vec<OrderIntent>) {
        match self {
            Engine::Sniping(e) => e.evaluate(c, input),
            Engine::StatArb(e) => e.evaluate(c, input),
            Engine::MarketMaking(e) => e.evaluate(c, input),
        }
    }
}

/// The engines of a core: those at hand, and any others.
#[verifier::ext_equal]
pub struct Lineup {
    pub known: Seq<Engine>,
    pub others: Seq<Box<dyn StrategyEngine>>,
}

/// What the known engines of one identity propose, in the order of the engines.
pub open spec fn known_proposals(
    c: &Arithmetic,
    engines: Seq<Engine>,
    who: EngineId,
    seen: Snapshot,
) -> Seq<OrderIntent>
    decreases engines.len(),
{
    if engines.len() == 0 {
        Seq::empty()
    } else {
        let before = known_proposals(c, engines.drop_last(), who, seen);
        if engines.last().identity() == who {
            before + engines.last().proposals(c, seen)
        } else {
            before
        }
    }
}

/// What any engines of one identity propose, in the order of the engines.
pub open spec fn proposals_of(
    c: &Arithmetic,
    engines: Seq<Box<dyn StrategyEngine>>,
    who: EngineId,
    seen: Snapshot,
) -> Seq<OrderIntent>
    decreases engines.len(),
{
    if engines.len() == 0 {
        Seq::empty()
    } else {
        let before = proposals_of(c, engines.drop_last(), who, seen);
        if engines.last().identity() == who {
            before + engines.last().proposals(c, seen)
        } else {
            before
        }
    }
}

/// What a line-up's engines of one identity propose.
pub open spec fn turn(c: &Arithmetic, lineup: Lineup, who: EngineId, seen: Snapshot) -> Seq<
    OrderIntent,
> {
    known_proposals(c, lineup.known, who, seen) + proposals_of(c, lineup.others, who, seen)
}

/// What every engine proposes, the most urgent first: sniping, since a stale quote does not stay
/// for long, then statistical arbitrage, then market making.
pub open spec fn all_proposals(c: &Arithmetic, lineup: Lineup, seen: Snapshot) -> Seq<
    OrderIntent,
> {
    turn(c, lineup, EngineId::LiquiditySniping, seen) + turn(c, lineup, EngineId::StatArb, seen)
        + turn(c, lineup, EngineId::MarketMaking, seen)
}

/// Runs every engine on one snapshot. What comes out stands in a fixed order of priority: where
/// two proposals together would break a limit, the more urgent one has the budget.
pub struct StrategyCore {
    known: Vec<Engine>,
    others: Vec<Box<dyn StrategyEngine>>,
}

impl StrategyCore {
    /// The engines, as they were given.
    pub closed spec fn lineup(&self) -> Lineup {
        Lineup { known: self.known@, others: self.others@ }
    }

    /// Any engines.
    pub fn new(engines: Vec<Box<dyn StrategyEngine>>) -> (r: StrategyCore)
        ensures
            r.lineup() == (Lineup { known: Seq::empty(), others: engines@ }),
    {
        StrategyCore { known: Vec::new(), others: engines }
    }

    /// Engines of those at hand.
    pub fn of_known(engines: Vec<Engine>) -> (r: StrategyCore)
        ensures
            r.lineup() == (Lineup { known: engines@, others: Seq::empty() }),
    {
        StrategyCore { known: engines, others: Vec::new() }
    }

    fn collect(
        &self,
        c: &Arithmetic,
        input: &StrategyInput,
        who: EngineId,
        out: &mut Vec<OrderIntent>,
    )
        ensures
            final(out)@ == old(out)@ + turn(c, self.lineup(), who, input@),
    {
        let ghost start = out@;
        let mut i: usize = 0;
        assert(start + Seq::<OrderIntent>::empty() =~= start);
        while i < self.known.len()
            invariant
                i <= self.known.len(),
                out@ == start + known_proposals(c, self.known@.take(i as int), who, input@),
            decreases self.known.len() - i,
        {
            assert(self.known@.take(i + 1).drop_last() =~= self.known@.take(i as int));
            assert(self.known@.take(i + 1).last() == self.known@[i as int]);
            if self.known[i].id() == who {
                let mut proposed = self.known[i].evaluate(c, input);
                out.append(&mut proposed);
                assert(out@ =~= start + known_proposals(
                    c,
                    self.known@.take(i + 1),
                    who,
                    input@,
                ));
            }
            i += 1;
        }
        assert(self.known@.take(i as int) =~= self.known@);
        let ghost middle = out@;
        let mut j: usize = 0;
        assert(middle + Seq::<OrderIntent>::empty() =~= middle);
        while j < self.others.len()
            invariant
                j <= self.others.len(),
                out@ == middle + proposals_of(c, self.others@.take(j as int), who, input@),
            decreases self.others.len() - j,
        {
            assert(self.others@.take(j + 1).drop_last() =~= self.others@.take(j as int));
            assert(self.others@.take(j + 1).last() == self.others@[j as int]);
            if self.others[j].id() == who {
                let mut proposed = self.others[j].evaluate(c, input);
                out.append(&mut proposed);
                assert(out@ =~= middle + proposals_of(
                    c,
                    self.others@.take(j + 1),
                    who,
                    input@,
                ));
            }
            j += 1;
        }
        assert(self.others@.take(j as int) =~= self.others@);
        assert(out@ =~= start + turn(c, self.lineup(), who, input@));
    }

    /// What every engine proposes, the most urgent first.
    pub fn evaluate_all(&self, c: &Arithmetic, input: &StrategyInput) -> (r: Vec<OrderIntent>)
        ensures
            r@ == all_proposals(c, self.lineup(), input@),
    {
        let mut out: Vec<OrderIntent> = Vec::new();
        self.collect(c, input, EngineId::LiquiditySniping, &mut out);
        self.collect(c, input, EngineId::StatArb, &mut out);
        self.collect(c, input, EngineId::MarketMaking, &mut out);
        assert(out@ =~= all_proposals(c, self.lineup(), input@));
        out
    }
}

/// An order on the YES side of a snapshot's contract, made now.
pub open spec fn order(
    seen: Snapshot,
    venue: VenueId,
    side: Side,
    price: Double,
    size: Double,
    order_type: OrderType,
    engine: EngineId,
) -> OrderIntent {
    OrderIntent {
        venue,
        contract: seen.contract,
        outcome: Outcome::Yes,
        side,
        price,
        size,
        order_type,
        engine,
        created_at: seen.now,
    }
}

/// An order on the YES side of the input's contract, made now.
pub fn make_order(
    input: &StrategyInput,
    venue: VenueId,
    side: Side,
    price: Double,
    size: Double,
    order_type: OrderType,
    engine: EngineId,
) -> (r: OrderIntent)
    ensures
        r == order(input@, venue, side, price, size, order_type, engine),
{
    OrderIntent {
        venue,
        contract: input.contract.clone(),
        outcome: Outcome::Yes,
        side,
        price,
        size,
        order_type,
        engine,
        created_at: input.now,
    }
}

proof fn lemma_proposals_split(
    c: &Arithmetic,
    first: Seq<Box<dyn StrategyEngine>>,
    later: Seq<Box<dyn StrategyEngine>>,
    who: EngineId,
    seen: Snapshot,
)
    ensures
        proposals_of(c, first + later, who, seen) == proposals_of(c, first, who, seen)
            + proposals_of(c, later, who, seen),
    decreases later.len(),
{
    if later.len() == 0 {
        assert(first + later =~= first);
        assert(proposals_of(c, first, who, seen) + Seq::<OrderIntent>::empty() =~= proposals_of(
            c,
            first,
            who,
            seen,
        ));
    } else {
        lemma_proposals_split(c, first, later.drop_last(), who, seen);
        assert((first + later).drop_last() =~= first + later.drop_last());
        assert((first + later).last() == later.last());
        assert(proposals_of(c, first + later, who, seen) =~= proposals_of(c, first, who, seen)
            + proposals_of(c, later, who, seen));
    }
}

proof fn lemma_known_split(
    c: &Arithmetic,
    first: Seq<Engine>,
    later: Seq<Engine>,
    who: EngineId,
    seen: Snapshot,
)
    ensures
        known_proposals(c, first + later, who, seen) == known_proposals(c, first, who, seen)
            + known_proposals(c, later, who, seen),
    decreases later.len(),
{
    if later.len() == 0 {
        assert(first + later =~= first);
        assert(known_proposals(c, first, who, seen) + Seq::<OrderIntent>::empty()
            =~= known_proposals(c, first, who, seen));
    } else {
        lemma_known_split(c, first, later.drop_last(), who, seen);
        assert((first + later).drop_last() =~= first + later.drop_last());
        assert((first + later).last() == later.last());
        assert(known_proposals(c, first + later, who, seen) =~= known_proposals(
            c,
            first,
            who,
            seen,
        ) + known_proposals(c, later, who, seen));
    }
}

/// Engines of one identity propose in the order of registration: those that come first propose
/// first, in their turn.
pub proof fn law_equals_keep_their_order(
    c: &Arithmetic,
    first: Lineup,
    later: Lineup,
    who: EngineId,
    seen: Snapshot,
)
    ensures
        known_proposals(c, first.known + later.known, who, seen) == known_proposals(
            c,
            first.known,
            who,
            seen,
        ) + known_proposals(c, later.known, who, seen),
        proposals_of(c, first.others + later.others, who, seen) == proposals_of(
            c,
            first.others,
            who,
            seen,
        ) + proposals_of(c, later.others, who, seen),
{
    lemma_known_split(c, first.known, later.known, who, seen);
    lemma_proposals_split(c, first.others, later.others, who, seen);
}

proof fn lemma_turn_is_the_engines(
    c: &Arithmetic,
    lineup: Lineup,
    who: EngineId,
    seen: Snapshot,
)
    requires
        lineup.known.len() == 0,
        lineup.others.len() == 3,
        lineup.others[0].identity() != lineup.others[1].identity(),
        lineup.others[1].identity() != lineup.others[2].identity(),
        lineup.others[2].identity() != lineup.others[0].identity(),
    ensures
        forall|i: int|
            0 <= i < 3 && (#[trigger] lineup.others[i]).identity() == who ==> turn(
                c,
                lineup,
                who,
                seen,
            ) == lineup.others[i].proposals(c, seen),
{
    let all = lineup.others;
    let two = all.drop_last();
    let one = two.drop_last();
    assert(all.last() == all[2] && two.last() == all[1] && one.last() == all[0]);
    assert(one.drop_last().len() == 0);
    reveal_with_fuel(proposals_of, 4);
    assert forall|i: int|
        0 <= i < 3 && (#[trigger] lineup.others[i]).identity() == who implies turn(
        c,
        lineup,
        who,
        seen,
    ) == lineup.others[i].proposals(c, seen) by {
        assert(turn(c, lineup, who, seen) =~= lineup.others[i].proposals(c, seen));
    }
}

/// Urgency is the order, whatever the order of registration: of three engines, one of each
/// identity, the sniping one proposes first, then the arbitrage one, then the market maker.
pub proof fn law_urgency_is_the_order(
    c: &Arithmetic,
    lineup: Lineup,
    sniping: int,
    stat_arb: int,
    market_making: int,
    seen: Snapshot,
)
    requires
        lineup.known.len() == 0,
        lineup.others.len() == 3,
        0 <= sniping < 3 && lineup.others[sniping].identity() == EngineId::LiquiditySniping,
        0 <= stat_arb < 3 && lineup.others[stat_arb].identity() == EngineId::StatArb,
        0 <= market_making < 3 && lineup.others[market_making].identity()
            == EngineId::MarketMaking,
    ensures
        all_proposals(c, lineup, seen) == lineup.others[sniping].proposals(c, seen)
            + lineup.others[stat_arb].proposals(c, seen) + lineup.others[market_making].proposals(
            c,
            seen,
        ),
{
    lemma_turn_is_the_engines(c, lineup, EngineId::LiquiditySniping, seen);
    lemma_turn_is_the_engines(c, lineup, EngineId::StatArb, seen);
    lemma_turn_is_the_engines(c, lineup, EngineId::MarketMaking, seen);
}

/// One more engine adds its own proposals to the turn of its identity, after those that were there,
/// and nothing to any other turn.
pub proof fn law_one_more_engine_joins_its_own_turn(
    c: &Arithmetic,
    lineup: Lineup,
    joining: Engine,
    who: EngineId,
    seen: Snapshot,
)
    requires
        lineup.others.len() == 0,
    ensures
        ({
            let after = Lineup { known: lineup.known.push(joining), ..lineup };
            turn(c, after, who, seen) == turn(c, lineup, who, seen) + if joining.identity() == who {
                joining.proposals(c, seen)
            } else {
                Seq::<OrderIntent>::empty()
            }
        }),
        lineup.known.len() == 0 ==> turn(c, lineup, who, seen) == Seq::<OrderIntent>::empty(),
{
    let after = lineup.known.push(joining);
    assert(after.drop_last() =~= lineup.known);
    assert(proposals_of(c, lineup.others, who, seen) =~= Seq::<OrderIntent>::empty());
    assert(turn(c, lineup, who, seen) =~= known_proposals(c, lineup.known, who, seen));
    assert(turn(c, Lineup { known: after, ..lineup }, who, seen) =~= known_proposals(
        c,
        after,
        who,
        seen,
    ));
    assert(known_proposals(c, lineup.known, who, seen) + Seq::<OrderIntent>::empty()
        =~= known_proposals(c, lineup.known, who, seen));
}

/// An engine's order is one on the YES side of the contract that it looked at, stamped with the
/// moment of the look.
pub proof fn law_orders_are_on_what_was_seen(
    seen: Snapshot,
    venue: VenueId,
    side: Side,
    price: Double,
    size: Double,
    order_type: OrderType,
    engine: EngineId,
)
    ensures
        ({
            let o = order(seen, venue, side, price, size, order_type, engine);
            &&& o.contract == seen.contract
            &&& o.created_at == seen.now
            &&& o.outcome == Outcome::Yes
            &&& o.venue == venue
            &&& o.side == side
            &&& o.price == price
            &&& o.size == size
            &&& o.order_type == order_type
            &&& o.engine == engine
        }),
{
}

} // verus!
