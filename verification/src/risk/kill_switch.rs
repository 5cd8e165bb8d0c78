//! Kill switches: halts at three scopes, each with its reason.
use vstd::prelude::*;
use crate::keyed::{TextMap, VenueMap};
use crate::types::contract::CanonicalContractId;
use crate::types::time::Timestamp;
use crate::types::venue::VenueId;

verus! {

/// What tripped, why and when.
#[derive(Debug, PartialEq)]
pub struct Trip {
    pub scope: TripScope,
    pub reason: String,
    pub tripped_at: Timestamp,
}

#[derive(Debug, PartialEq)]
pub enum TripScope {
    Global,
    Venue(VenueId),
    Contract(CanonicalContractId),
}

impl Clone for TripScope {
    fn clone(&self) -> (r: Self)
        ensures
            r == *self,
    {
        match self {
            TripScope::Global => TripScope::Global,
            TripScope::Venue(venue) => TripScope::Venue(*venue),
            TripScope::Contract(contract) => TripScope::Contract(contract.clone()),
        }
    }
}

impl Clone for Trip {
    fn clone(&self) -> (r: Self)
        ensures
            r == *self,
    {
        Trip {
            scope: self.scope.clone(),
            reason: self.reason.clone(),
            tripped_at: self.tripped_at,
        }
    }
}

/// Independent halts: of everything, of one venue, of one contract. Any of them is enough to
/// reject.
#[derive(Debug)]
pub struct KillSwitch {
    global: Option<Trip>,
    per_venue: VenueMap<Trip>,
    per_contract: TextMap<Trip>,
}

/// The halts that are active.
pub struct SwitchState {
    pub global: Option<Trip>,
    pub venues: VenueMap<Trip>,
    pub contracts: Map<Seq<char>, Trip>,
    /// The contracts in the order in which they were first halted.
    pub order: Seq<Seq<char>>,
}

impl SwitchState {
    /// No halt at all.
    pub open spec fn clear() -> SwitchState {
        SwitchState {
            global: None,
            venues: VenueMap::empty(),
            contracts: Map::empty(),
            order: Seq::empty(),
        }
    }

    /// Whether every halt stands where its scope says, and each halted contract is listed once.
    pub open spec fn is_sound(self) -> bool {
        &&& self.global matches Some(t) ==> t.scope == TripScope::Global
        &&& forall|venue: VenueId|
            (#[trigger] self.venues.at(venue)) matches Some(t) ==> t.scope == TripScope::Venue(venue)
        &&& forall|name: Seq<char>| #[trigger]
            self.contracts.contains_key(name) ==> (
            self.contracts[name].scope matches TripScope::Contract(id) && id@ == name)
        &&& self.order.no_duplicates()
        &&& self.order.to_set() == self.contracts.dom()
    }

    /// The halt that stops a contract on a venue: the global one, then the venue's, then the
    /// contract's.
    pub open spec fn trip_for(self, venue: VenueId, contract: Seq<char>) -> Option<Trip> {
        if self.global is Some {
            self.global
        } else if self.venues.at(venue) is Some {
            self.venues.at(venue)
        } else if self.contracts.contains_key(contract) {
            Some(self.contracts[contract])
        } else {
            None
        }
    }

    /// The state with a global halt added.
    pub open spec fn with_global(self, trip: Trip) -> SwitchState {
        SwitchState { global: Some(trip), ..self }
    }

    /// Every active halt: global, by venue, by contract.
    pub open spec fn all(self) -> Seq<Trip> {
        listed(self.global) + listed(self.venues.polymarket) + listed(self.venues.kalshi) + listed(
            self.venues.paper,
        ) + self.order.map_values(|name: Seq<char>| self.contracts[name])
    }
}

/// A value that may be absent, as a list.
pub open spec fn listed<T>(value: Option<T>) -> Seq<T> {
    match value {
        Some(v) => seq![v],
        None => Seq::empty(),
    }
}

impl View for KillSwitch {
    type V = SwitchState;

    closed spec fn view(&self) -> SwitchState {
        SwitchState {
            global: self.global,
            venues: self.per_venue,
            contracts: self.per_contract@,
            order: self.per_contract.order(),
        }
    }
}

impl Default for KillSwitch {
    fn default() -> (r: KillSwitch)
        ensures
            r@ == SwitchState::clear(),
    {
        KillSwitch::new()
    }
}

impl KillSwitch {
    #[verifier::type_invariant]
    spec fn inv(&self) -> bool {
        &&& self.global matches Some(t) ==> t.scope == TripScope::Global
        &&& forall|venue: VenueId|
            (#[trigger] self.per_venue.at(venue)) matches Some(t) ==> t.scope
                == TripScope::Venue(venue)
        &&& forall|name: Seq<char>| #[trigger]
            self.per_contract@.contains_key(name) ==> (
            self.per_contract@[name].scope matches TripScope::Contract(id) && id@ == name)
    }

    /// Nothing is halted.
    pub fn new() -> (r: KillSwitch)
        ensures
            r@ == SwitchState::clear(),
    {
        KillSwitch { global: None, per_venue: VenueMap::new(), per_contract: TextMap::new() }
    }

    /// Halts everything.
    pub fn trip_global(&mut self, reason: &str)
        ensures
            final(self)@.global matches Some(t) && t.scope == TripScope::Global && t.reason@
                == reason@,
            final(self)@ == old(self)@.with_global(final(self)@.global->0),
    {
        proof {
            use_type_invariant(&*self);
        }
        self.global =
        Some(
            Trip {
                scope: TripScope::Global,
                reason: reason.to_owned(),
                tripped_at: Timestamp::now(),
            },
        );
    }

    /// Halts one venue.
    pub fn trip_venue(&mut self, venue: VenueId, reason: &str)
        ensures
            final(self)@.venues.at(venue) matches Some(t) && t.scope == TripScope::Venue(venue)
                && t.reason@ == reason@,
            final(self)@ == (SwitchState {
                venues: old(self)@.venues.with(venue, final(self)@.venues.at(venue)),
                ..old(self)@
            }),
    {
        let trip = Trip {
            scope: TripScope::Venue(venue),
            reason: reason.to_owned(),
            tripped_at: Timestamp::now(),
        };
        proof {
            use_type_invariant(&*self);
        }
        let mut per_venue: VenueMap<Trip> = VenueMap::new();
        std::mem::swap(&mut per_venue, &mut self.per_venue);
        let ghost before = per_venue;
        per_venue.set(venue, Some(trip));
        assert forall|other: VenueId|
            (#[trigger] per_venue.at(other)) matches Some(t) implies per_venue.at(other)->0.scope
            == TripScope::Venue(other) by {
            if other != venue {
                assert(per_venue.at(other) == before.at(other));
            }
        }
        self.per_venue = per_venue;
    }

    /// Halts one contract.
    pub fn trip_contract(&mut self, contract: CanonicalContractId, reason: &str)
        ensures
            final(self)@.contracts.contains_key(contract@),
            final(self)@.contracts[contract@].scope == TripScope::Contract(contract),
            final(self)@.contracts[contract@].reason@ == reason@,
            final(self)@.contracts == old(self)@.contracts.insert(
                contract@,
                final(self)@.contracts[contract@],
            ),
            final(self)@ == (SwitchState {
                contracts: final(self)@.contracts,
                order: final(self)@.order,
                ..old(self)@
            }),
            final(self)@.order == (if old(self)@.contracts.contains_key(contract@) {
                old(self)@.order
            } else {
                old(self)@.order.push(contract@)
            }),
    {
        let name = contract.0.clone();
        let trip = Trip {
            scope: TripScope::Contract(contract),
            reason: reason.to_owned(),
            tripped_at: Timestamp::now(),
        };
        proof {
            use_type_invariant(&*self);
        }
        let mut per_contract: TextMap<Trip> = TextMap::new();
        std::mem::swap(&mut per_contract, &mut self.per_contract);
        per_contract.insert(name, trip);
        self.per_contract = per_contract;
    }

    /// Lifts every halt. For an operator, once the cause is known to be gone; nothing in the
    /// trading path calls it.
    pub fn reset_all(&mut self)
        ensures
            final(self)@ == SwitchState::clear(),
    {
        proof {
            use_type_invariant(&*self);
        }
        self.global = None;
        self.per_venue = VenueMap::new();
        self.per_contract = TextMap::new();
    }

    /// Whether everything is halted.
    pub fn is_global_tripped(&self) -> (r: bool)
        ensures
            r == (self@.global is Some),
    {
        self.global.is_some()
    }

    /// Why `contract` is halted on `venue`, if it is.
    pub fn reason_if_tripped(&self, venue: VenueId, contract: &CanonicalContractId) -> (r: Option<
        String,
    >)
        ensures
            r == (match self@.trip_for(venue, contract@) {
                Some(t) => Some(t.reason),
                None => None,
            }),
    {
        match &self.global {
            Some(trip) => return Some(trip.reason.clone()),
            None => {},
        }
        match self.per_venue.get(venue) {
            Some(trip) => return Some(trip.reason.clone()),
            None => {},
        }
        match self.per_contract.get(contract.0.as_str()) {
            Some(trip) => Some(trip.reason.clone()),
            None => None,
        }
    }

    /// Every active halt.
    pub fn active_trips(&self) -> (r: Vec<Trip>)
        ensures
            r@ == self@.all(),
            self@.is_sound(),
    {
        proof {
            use_type_invariant(self);
        }
        let mut trips: Vec<Trip> = Vec::new();
        match &self.global {
            Some(trip) => trips.push(trip.clone()),
            None => {},
        }
        match &self.per_venue.polymarket {
            Some(trip) => trips.push(trip.clone()),
            None => {},
        }
        match &self.per_venue.kalshi {
            Some(trip) => trips.push(trip.clone()),
            None => {},
        }
        match &self.per_venue.paper {
            Some(trip) => trips.push(trip.clone()),
            None => {},
        }
        let ghost head = trips@;
        let ghost names = self.per_contract.order();
        let ghost map = self.per_contract@;
        assert(head == listed(self@.global) + listed(self@.venues.polymarket) + listed(
            self@.venues.kalshi,
        ) + listed(self@.venues.paper));
        let n: usize = self.per_contract.len();
        let mut i: usize = 0;
        while i < n
            invariant
                i <= n,
                n == self.per_contract.order().len(),
                names == self.per_contract.order(),
                map == self.per_contract@,
                trips@ == head + names.take(i as int).map_values(|name: Seq<char>| map[name]),
            decreases n - i,
        {
            trips.push(self.per_contract.value_at(i).clone());
            i += 1;
            assert(names.take(i as int) == names.take(i - 1).push(names[i - 1]));
            assert(trips@ == head + names.take(i as int).map_values(|name: Seq<char>| map[name]));
        }
        assert(names.take(n as int) == names);
        assert(trips@ == self@.all());
        trips
    }
}

/// A global halt stops every contract on every venue.
pub proof fn law_global_trip_stops_everything(
    state: SwitchState,
    venue: VenueId,
    contract: Seq<char>,
)
    requires
        state.global is Some,
    ensures
        state.trip_for(venue, contract) == state.global,
{
}

/// A venue's halt stops that venue and leaves the others as they were.
pub proof fn law_venue_trip_is_scoped(
    state: SwitchState,
    halted: VenueId,
    trip: Trip,
    venue: VenueId,
    contract: Seq<char>,
)
    ensures
        ({
            let after = SwitchState { venues: state.venues.with(halted, Some(trip)), ..state };
            if venue == halted {
                after.trip_for(venue, contract) is Some
            } else {
                after.trip_for(venue, contract) == state.trip_for(venue, contract)
            }
        }),
{
}

/// A contract's halt stops that contract on every venue and leaves the others as they were.
pub proof fn law_contract_trip_is_scoped(
    state: SwitchState,
    halted: Seq<char>,
    trip: Trip,
    venue: VenueId,
    contract: Seq<char>,
)
    ensures
        ({
            let after = SwitchState { contracts: state.contracts.insert(halted, trip), ..state };
            if contract == halted {
                after.trip_for(venue, contract) is Some
            } else {
                after.trip_for(venue, contract) == state.trip_for(venue, contract)
            }
        }),
{
}

/// Nothing is stopped once every halt is lifted.
pub proof fn law_reset_stops_nothing(venue: VenueId, contract: Seq<char>)
    ensures
        SwitchState::clear().trip_for(venue, contract) is None,
        SwitchState::clear().all() =~= Seq::<Trip>::empty(),
{
}

/// Every halt is listed, and each once: no two of the listed halts have one scope.
pub proof fn law_each_halt_is_listed_once(state: SwitchState)
    requires
        state.is_sound(),
    ensures
        forall|i: int, j: int|
            0 <= i < j < state.all().len() ==> (#[trigger] state.all()[i]).scope != (
            #[trigger] state.all()[j]).scope,
        state.global matches Some(t) ==> state.all().contains(t),
        forall|venue: VenueId|
            (#[trigger] state.venues.at(venue)) matches Some(t) ==> state.all().contains(t),
        forall|name: Seq<char>| #[trigger]
            state.contracts.contains_key(name) ==> state.all().contains(state.contracts[name]),
{
    let g = listed(state.global);
    let p = listed(state.venues.at(VenueId::Polymarket));
    let k = listed(state.venues.at(VenueId::Kalshi));
    let w = listed(state.venues.at(VenueId::Paper));
    let head = g + p + k + w;
    let tail = state.order.map_values(|name: Seq<char>| state.contracts[name]);
    let all = state.all();
    assert(all =~= head + tail);
    assert forall|i: int| 0 <= i < tail.len() implies (
    #[trigger] tail[i]).scope matches TripScope::Contract(id) && id@ == state.order[i] by {
        assert(state.order.to_set().contains(state.order[i]));
        assert(state.contracts.contains_key(state.order[i]));
    }
    assert forall|i: int, j: int| 0 <= i < j < all.len() implies (#[trigger] all[i]).scope != (
    #[trigger] all[j]).scope by {
        if j >= head.len() {
            let b = j - head.len();
            assert(all[j] == tail[b]);
            if i >= head.len() {
                let a = i - head.len();
                assert(all[i] == tail[a]);
                assert(state.order[a] != state.order[b]);
            }
        }
    }
    if state.global is Some {
        assert(all[0] == state.global->0);
    }
    assert forall|venue: VenueId|
        (#[trigger] state.venues.at(venue)) matches Some(t) implies all.contains(
        state.venues.at(venue)->0,
    ) by {
        match venue {
            VenueId::Polymarket => {
                assert(all[g.len() as int] == state.venues.at(venue)->0);
            },
            VenueId::Kalshi => {
                assert(all[(g.len() + p.len()) as int] == state.venues.at(venue)->0);
            },
            VenueId::Paper => {
                assert(all[(g.len() + p.len() + k.len()) as int] == state.venues.at(venue)->0);
            },
        }
    }
    assert forall|name: Seq<char>| #[trigger]
        state.contracts.contains_key(name) implies all.contains(state.contracts[name]) by {
        assert(state.order.to_set().contains(name));
        let i = choose|i: int| 0 <= i < state.order.len() && state.order[i] == name;
        assert(tail[i] == state.contracts[name]);
        assert(all[head.len() + i] == tail[i]);
    }
}

} // verus!
