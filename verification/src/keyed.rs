//! Small maps: by name, in the order in which the names came, and by venue.
use vstd::prelude::*;
use crate::text;
use crate::types::venue::VenueId;

verus! {

/// A map from text to values. Every name stands once, in the order in which the names
/// first came.
#[derive(Debug)]
pub struct TextMap<V> {
    entries: Vec<(String, V)>,
}

spec fn distinct<V>(entries: Seq<(String, V)>) -> bool {
    forall|i: int, j: int|
        0 <= i < j < entries.len() ==> (#[trigger] entries[i]).0@ != (#[trigger] entries[j]).0@
}

spec fn stands_at<V>(entries: Seq<(String, V)>, name: Seq<char>, i: int) -> bool {
    0 <= i < entries.len() && entries[i].0@ == name
}

spec fn map_of<V>(entries: Seq<(String, V)>) -> Map<Seq<char>, V> {
    Map::new(
        |name: Seq<char>| exists|i: int| stands_at(entries, name, i),
        |name: Seq<char>| entries[choose|i: int| stands_at(entries, name, i)].1,
    )
}

spec fn names_of<V>(entries: Seq<(String, V)>) -> Seq<Seq<char>> {
    entries.map_values(|e: (String, V)| e.0@)
}

proof fn lemma_entry<V>(entries: Seq<(String, V)>, i: int)
    requires
        distinct(entries),
        0 <= i < entries.len(),
    ensures
        map_of(entries).contains_key(entries[i].0@),
        map_of(entries)[entries[i].0@] == entries[i].1,
{
    let name = entries[i].0@;
    assert(stands_at(entries, name, i));
    let p = choose|p: int| stands_at(entries, name, p);
    assert(stands_at(entries, name, p));
    if p < i {
        assert(entries[p].0@ != entries[i].0@);
    } else if i < p {
        assert(entries[i].0@ != entries[p].0@);
    }
}

proof fn lemma_order<V>(entries: Seq<(String, V)>)
    requires
        distinct(entries),
    ensures
        names_of(entries).no_duplicates(),
        names_of(entries).to_set() =~= map_of(entries).dom(),
{
    let names = names_of(entries);
    assert forall|name: Seq<char>| names.to_set().contains(name) <==> map_of(
        entries,
    ).dom().contains(name) by {
        if names.contains(name) {
            let i = names.index_of(name);
            assert(stands_at(entries, name, i));
        }
        if map_of(entries).contains_key(name) {
            let p = choose|p: int| stands_at(entries, name, p);
            assert(stands_at(entries, name, p));
            assert(names[p] == name);
        }
    }
    assert forall|i: int, j: int| 0 <= i < names.len() && 0 <= j < names.len() && i != j implies
        names[i] != names[j] by {
        if i < j {
            assert(entries[i].0@ != entries[j].0@);
        } else {
            assert(entries[j].0@ != entries[i].0@);
        }
    }
}

proof fn lemma_update<V>(entries: Seq<(String, V)>, i: int, entry: (String, V))
    requires
        distinct(entries),
        0 <= i < entries.len(),
        entry.0@ == entries[i].0@,
    ensures
        distinct(entries.update(i, entry)),
        map_of(entries.update(i, entry)) =~= map_of(entries).insert(entry.0@, entry.1),
        names_of(entries.update(i, entry)) =~= names_of(entries),
{
    let after = entries.update(i, entry);
    assert(distinct(after));
    assert forall|name: Seq<char>| #[trigger]
        map_of(after).contains_key(name) <==> map_of(entries).insert(
            entry.0@,
            entry.1,
        ).contains_key(name) by {
        if map_of(after).contains_key(name) {
            let p = choose|p: int| stands_at(after, name, p);
            assert(stands_at(after, name, p));
            assert(stands_at(entries, name, p));
        }
        if map_of(entries).contains_key(name) {
            let p = choose|p: int| stands_at(entries, name, p);
            assert(stands_at(entries, name, p));
            assert(stands_at(after, name, p));
        }
        if name == entry.0@ {
            assert(stands_at(after, name, i));
        }
    }
    assert forall|name: Seq<char>| #[trigger] map_of(after).contains_key(name) implies map_of(
        after,
    )[name] == map_of(entries).insert(entry.0@, entry.1)[name] by {
        let p = choose|p: int| stands_at(after, name, p);
        assert(stands_at(after, name, p));
        lemma_entry(after, p);
        lemma_entry(entries, p);
        lemma_entry(after, i);
    }
}

proof fn lemma_push<V>(entries: Seq<(String, V)>, entry: (String, V))
    requires
        distinct(entries),
        !map_of(entries).contains_key(entry.0@),
    ensures
        distinct(entries.push(entry)),
        map_of(entries.push(entry)) =~= map_of(entries).insert(entry.0@, entry.1),
        names_of(entries.push(entry)) =~= names_of(entries).push(entry.0@),
{
    let after = entries.push(entry);
    assert forall|i: int, j: int| 0 <= i < j < after.len() implies (#[trigger] after[i]).0@ != (
    #[trigger] after[j]).0@ by {
        if j == entries.len() {
            assert(stands_at(entries, entries[i].0@, i));
        }
    }
    assert forall|name: Seq<char>| #[trigger]
        map_of(after).contains_key(name) <==> map_of(entries).insert(
            entry.0@,
            entry.1,
        ).contains_key(name) by {
        if map_of(after).contains_key(name) {
            let p = choose|p: int| stands_at(after, name, p);
            assert(stands_at(after, name, p));
            if p < entries.len() {
                assert(stands_at(entries, name, p));
            }
        }
        if map_of(entries).contains_key(name) {
            let p = choose|p: int| stands_at(entries, name, p);
            assert(stands_at(entries, name, p));
            assert(stands_at(after, name, p));
        }
        if name == entry.0@ {
            assert(stands_at(after, name, entries.len() as int));
        }
    }
    assert forall|name: Seq<char>| #[trigger] map_of(after).contains_key(name) implies map_of(
        after,
    )[name] == map_of(entries).insert(entry.0@, entry.1)[name] by {
        let p = choose|p: int| stands_at(after, name, p);
        assert(stands_at(after, name, p));
        lemma_entry(after, p);
        if p < entries.len() {
            lemma_entry(entries, p);
        }
    }
}

impl<V> TextMap<V> {
    #[verifier::type_invariant]
    spec fn inv(&self) -> bool {
        distinct(self.entries@)
    }

    /// The names, in the order in which they first came.
    pub closed spec fn order(&self) -> Seq<Seq<char>> {
        names_of(self.entries@)
    }

    /// No names.
    pub fn new() -> (r: TextMap<V>)
        ensures
            r@ == Map::<Seq<char>, V>::empty(),
            r.order() == Seq::<Seq<char>>::empty(),
    {
        let r = TextMap { entries: Vec::new() };
        assert(r@ =~= Map::<Seq<char>, V>::empty());
        r
    }

    /// How many names there are. The order holds each name of the map once.
    pub fn len(&self) -> (r: usize)
        ensures
            r == self.order().len(),
            self.order().no_duplicates(),
            self.order().to_set() == self@.dom(),
    {
        proof {
            use_type_invariant(self);
            lemma_order(self.entries@);
        }
        self.entries.len()
    }

    /// The name at the place `i` of the order.
    pub fn name_at(&self, i: usize) -> (r: &String)
        requires
            i < self.order().len(),
        ensures
            r@ == self.order()[i as int],
            self@.contains_key(r@),
    {
        proof {
            use_type_invariant(self);
            lemma_entry(self.entries@, i as int);
        }
        &self.entries[i].0
    }

    /// The value of the name at the place `i` of the order.
    pub fn value_at(&self, i: usize) -> (r: &V)
        requires
            i < self.order().len(),
        ensures
            self@.contains_key(self.order()[i as int]),
            *r == self@[self.order()[i as int]],
    {
        proof {
            use_type_invariant(self);
            lemma_entry(self.entries@, i as int);
        }
        &self.entries[i].1
    }

    fn find(&self, name: &str) -> (r: Option<usize>)
        ensures
            match r {
                Some(i) => stands_at(self.entries@, name@, i as int),
                None => !self@.contains_key(name@),
            },
    {
        let mut i: usize = 0;
        while i < self.entries.len()
            invariant
                i <= self.entries.len(),
                forall|j: int| 0 <= j < i ==> !stands_at(self.entries@, name@, j),
            decreases self.entries.len() - i,
        {
            if text::same_text(self.entries[i].0.as_str(), name) {
                return Some(i);
            }
            i += 1;
        }
        None
    }

    /// The value of `name`, if it has one.
    pub fn get(&self, name: &str) -> (r: Option<&V>)
        ensures
            match r {
                Some(v) => self@.contains_key(name@) && self@[name@] == *v,
                None => !self@.contains_key(name@),
            },
    {
        proof {
            use_type_invariant(self);
        }
        match self.find(name) {
            Some(i) => {
                proof {
                    lemma_entry(self.entries@, i as int);
                }
                Some(&self.entries[i].1)
            },
            None => None,
        }
    }

    /// Whether `name` has a value.
    pub fn contains(&self, name: &str) -> (r: bool)
        ensures
            r == self@.contains_key(name@),
    {
        self.get(name).is_some()
    }

    /// Gives `name` the value `value`; a new name goes to the end of the order.
    pub fn insert(&mut self, name: String, value: V)
        ensures
            final(self)@ == old(self)@.insert(name@, value),
            final(self).order() == (if old(self)@.contains_key(name@) {
                old(self).order()
            } else {
                old(self).order().push(name@)
            }),
    {
        proof {
            use_type_invariant(&*self);
        }
        let at = self.find(name.as_str());
        let mut entries: Vec<(String, V)> = Vec::new();
        std::mem::swap(&mut entries, &mut self.entries);
        let ghost before = entries@;
        match at {
            Some(i) => {
                proof {
                    lemma_entry(before, i as int);
                    lemma_update(before, i as int, (name, value));
                }
                entries.set(i, (name, value));
            },
            None => {
                proof {
                    lemma_push(before, (name, value));
                }
                entries.push((name, value));
            },
        }
        self.entries = entries;
    }
}

proof fn lemma_remove<V>(entries: Seq<(String, V)>, i: int)
    requires
        distinct(entries),
        0 <= i < entries.len(),
    ensures
        distinct(entries.remove(i)),
        map_of(entries.remove(i)) =~= map_of(entries).remove(entries[i].0@),
        names_of(entries.remove(i)) =~= names_of(entries).remove(i),
{
    let after = entries.remove(i);
    let gone = entries[i].0@;
    assert forall|a: int, b: int| 0 <= a < b < after.len() implies (#[trigger] after[a]).0@ != (
    #[trigger] after[b]).0@ by {
        let x = if a < i {
            a
        } else {
            a + 1
        };
        let y = if b < i {
            b
        } else {
            b + 1
        };
        assert(entries[x].0@ != entries[y].0@);
    }
    assert forall|name: Seq<char>| #[trigger] map_of(after).contains_key(name) <==> map_of(
        entries,
    ).remove(gone).contains_key(name) by {
        if map_of(after).contains_key(name) {
            let p = choose|p: int| stands_at(after, name, p);
            assert(stands_at(after, name, p));
            let q = if p < i {
                p
            } else {
                p + 1
            };
            assert(stands_at(entries, name, q));
            if q < i {
                assert(entries[q].0@ != entries[i].0@);
            } else {
                assert(entries[i].0@ != entries[q].0@);
            }
        }
        if map_of(entries).contains_key(name) && name != gone {
            let q = choose|q: int| stands_at(entries, name, q);
            assert(stands_at(entries, name, q));
            let p = if q < i {
                q
            } else {
                q - 1
            };
            assert(stands_at(after, name, p));
        }
    }
    assert forall|name: Seq<char>| #[trigger] map_of(after).contains_key(name) implies map_of(
        after,
    )[name] == map_of(entries).remove(gone)[name] by {
        let p = choose|p: int| stands_at(after, name, p);
        assert(stands_at(after, name, p));
        let q = if p < i {
            p
        } else {
            p + 1
        };
        lemma_entry(after, p);
        lemma_entry(entries, q);
    }
}

impl<V> TextMap<V> {
    /// Takes the value of `name` out of the map, and the name with it.
    pub fn take(&mut self, name: &str) -> (r: Option<V>)
        ensures
            match r {
                Some(v) => old(self)@.contains_key(name@) && old(self)@[name@] == v,
                None => !old(self)@.contains_key(name@),
            },
            final(self)@ == old(self)@.remove(name@),
    {
        proof {
            use_type_invariant(&*self);
        }
        match self.find(name) {
            Some(i) => {
                let mut entries: Vec<(String, V)> = Vec::new();
                std::mem::swap(&mut entries, &mut self.entries);
                proof {
                    lemma_entry(entries@, i as int);
                    lemma_remove(entries@, i as int);
                }
                let (_, value) = entries.remove(i);
                self.entries = entries;
                Some(value)
            },
            None => {
                assert(old(self)@.remove(name@) =~= old(self)@);
                None
            },
        }
    }

    /// Takes everything out, in order.
    pub fn drain(&mut self) -> (r: Vec<(String, V)>)
        ensures
            r.len() == old(self).order().len(),
            old(self).order().no_duplicates(),
            old(self).order().to_set() == old(self)@.dom(),
            forall|i: int|
                0 <= i < r.len() ==> (#[trigger] r[i]).0@ == old(self).order()[i] && old(
                    self,
                )@.contains_key(old(self).order()[i]) && r[i].1 == old(self)@[old(self).order()[i]],
            final(self)@ == Map::<Seq<char>, V>::empty(),
            final(self).order() == Seq::<Seq<char>>::empty(),
    {
        proof {
            use_type_invariant(&*self);
            lemma_order(self.entries@);
            assert forall|i: int| 0 <= i < self.entries.len() implies self@.contains_key(
                (#[trigger] self.entries@[i]).0@,
            ) && self.entries@[i].1 == self@[self.entries@[i].0@] by {
                lemma_entry(self.entries@, i);
            }
        }
        let mut entries: Vec<(String, V)> = Vec::new();
        std::mem::swap(&mut entries, &mut self.entries);
        assert(self@ =~= Map::<Seq<char>, V>::empty());
        entries
    }
}

impl<V: Copy> TextMap<V> {
    /// A copy of the map.
    pub fn copy(&self) -> (r: TextMap<V>)
        ensures
            r@ == self@,
            r.order() == self.order(),
    {
        proof {
            use_type_invariant(self);
        }
        let mut entries: Vec<(String, V)> = Vec::new();
        let mut i: usize = 0;
        while i < self.entries.len()
            invariant
                i <= self.entries.len(),
                entries@ == self.entries@.take(i as int),
            decreases self.entries.len() - i,
        {
            entries.push((self.entries[i].0.clone(), self.entries[i].1));
            i += 1;
            assert(self.entries@.take(i as int) == self.entries@.take(i - 1).push(
                self.entries@[i - 1],
            ));
        }
        assert(self.entries@.take(i as int) == self.entries@);
        TextMap { entries }
    }
}

impl<V> View for TextMap<V> {
    type V = Map<Seq<char>, V>;

    closed spec fn view(&self) -> Map<Seq<char>, V> {
        map_of(self.entries@)
    }
}

/// A map from venues to values, walked in the order of the venues.
#[derive(Debug, Clone, Copy)]
pub struct VenueMap<V> {
    pub polymarket: Option<V>,
    pub kalshi: Option<V>,
    pub paper: Option<V>,
}

impl<V> VenueMap<V> {
    /// The value of a venue, if it has one.
    pub open spec fn at(&self, venue: VenueId) -> Option<V> {
        match venue {
            VenueId::Polymarket => self.polymarket,
            VenueId::Kalshi => self.kalshi,
            VenueId::Paper => self.paper,
        }
    }

    /// The map with the value of one venue replaced.
    pub open spec fn with(self, venue: VenueId, value: Option<V>) -> VenueMap<V> {
        match venue {
            VenueId::Polymarket => VenueMap { polymarket: value, ..self },
            VenueId::Kalshi => VenueMap { kalshi: value, ..self },
            VenueId::Paper => VenueMap { paper: value, ..self },
        }
    }

    /// The map without values.
    pub open spec fn empty() -> VenueMap<V> {
        VenueMap { polymarket: None, kalshi: None, paper: None }
    }

    /// No values.
    pub fn new() -> (r: VenueMap<V>)
        ensures
            r == VenueMap::<V>::empty(),
    {
        VenueMap { polymarket: None, kalshi: None, paper: None }
    }

    /// The value of `venue`, if it has one.
    pub fn get(&self, venue: VenueId) -> (r: Option<&V>)
        ensures
            match r {
                Some(v) => self.at(venue) == Some(*v),
                None => self.at(venue) is None,
            },
    {
        match venue {
            VenueId::Polymarket => self.polymarket.as_ref(),
            VenueId::Kalshi => self.kalshi.as_ref(),
            VenueId::Paper => self.paper.as_ref(),
        }
    }

    /// Gives `venue` the value `value`, or takes its value away.
    pub fn set(&mut self, venue: VenueId, value: Option<V>)
        ensures
            *final(self) == old(self).with(venue, value),
    {
        match venue {
            VenueId::Polymarket => {
                self.polymarket = value;
            },
            VenueId::Kalshi => {
                self.kalshi = value;
            },
            VenueId::Paper => {
                self.paper = value;
            },
        }
    }
}

} // verus!
