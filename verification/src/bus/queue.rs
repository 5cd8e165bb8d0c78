//! One bounded topic.
use vstd::prelude::*;
use crossbeam_queue::ArrayQueue;
use std::collections::VecDeque;

verus! {

/// The queue of `crossbeam_queue`.
#[verifier::external_type_specification]
#[verifier::external_body]
#[verifier::reject_recursive_types(T)]
pub struct ExArrayQueue<T>(ArrayQueue<T>);

/// What a queue holds, oldest first.
pub uninterp spec fn queued(q: ArrayQueue<u64>) -> Seq<u64>;

/// How much a queue was made to hold.
pub uninterp spec fn room(q: ArrayQueue<u64>) -> nat;

/// `ArrayQueue::new`: an empty queue for `capacity` elements. It panics for none, and for more
/// than an allocation of its slots, a stamp and a value each, can hold.
#[verifier::external_body]
fn new_queue(capacity: usize) -> (r: ArrayQueue<u64>)
    requires
        0 < capacity,
        capacity * 16 <= isize::MAX,
    ensures
        queued(r) == Seq::<u64>::empty(),
        room(r) == capacity,
{
    ArrayQueue::new(capacity)
}

/// `ArrayQueue::push`, by the only holder of the queue: the element goes to the back of a queue
/// with room left, and a full queue stays as it is.
#[verifier::external_body]
fn push(q: &mut ArrayQueue<u64>, value: u64) -> (r: bool)
    ensures
        r == (queued(*old(q)).len() < room(*old(q))),
        queued(*final(q)) == (if r {
            queued(*old(q)).push(value)
        } else {
            queued(*old(q))
        }),
        room(*final(q)) == room(*old(q)),
{
    q.push(value).is_ok()
}

/// `ArrayQueue::pop`, by the only holder of the queue: the oldest element leaves, if there is
/// one.
#[verifier::external_body]
fn pop(q: &mut ArrayQueue<u64>) -> (r: Option<u64>)
    ensures
        r == (if queued(*old(q)).len() == 0 {
            None
        } else {
            Some(queued(*old(q))[0])
        }),
        queued(*final(q)) == (if queued(*old(q)).len() == 0 {
            queued(*old(q))
        } else {
            queued(*old(q)).drop_first()
        }),
        room(*final(q)) == room(*old(q)),
{
    q.pop()
}

/// `ArrayQueue::len`: how many elements the queue holds.
#[verifier::external_body]
fn queue_len(q: &ArrayQueue<u64>) -> (r: usize)
    ensures
        r == queued(*q).len(),
{
    q.len()
}

/// `ArrayQueue::capacity`: how many elements the queue was made for.
#[verifier::external_body]
fn queue_capacity(q: &ArrayQueue<u64>) -> (r: usize)
    ensures
        r == room(*q),
{
    q.capacity()
}

/// One bounded topic. The queue carries a ticket for each item, and the items stand in the
/// order of their tickets.
pub struct Bus<T> {
    queue: ArrayQueue<u64>,
    items: VecDeque<T>,
    dropped: u64,
    published: u64,
}

/// What a topic holds.
#[verifier::ext_equal]
pub struct BusState<T> {
    /// The items, oldest first.
    pub items: Seq<T>,
    pub capacity: nat,
    /// How many items were dropped, modulo 2^64.
    pub dropped: u64,
    /// How many items were taken, modulo 2^64.
    pub published: u64,
}

impl<T> View for Bus<T> {
    type V = BusState<T>;

    closed spec fn view(&self) -> BusState<T> {
        BusState {
            items: self.items@,
            capacity: room(self.queue),
            dropped: self.dropped,
            published: self.published,
        }
    }
}

impl<T> BusState<T> {
    /// The topic after an item was offered: taken where there is room, else dropped. Either way
    /// it is counted.
    pub open spec fn offered(self, item: T) -> BusState<T> {
        if self.items.len() < self.capacity {
            BusState {
                items: self.items.push(item),
                published: self.published.wrapping_add(1),
                ..self
            }
        } else {
            BusState { dropped: self.dropped.wrapping_add(1), ..self }
        }
    }

    /// The topic after its oldest item, if any, was taken out.
    pub open spec fn drained(self) -> BusState<T> {
        if self.items.len() == 0 {
            self
        } else {
            BusState { items: self.items.drop_first(), ..self }
        }
    }
}

impl<T> Bus<T> {
    /// Whether there is a ticket for each item and no more of them than there is room for.
    pub closed spec fn well_formed(&self) -> bool {
        &&& queued(self.queue).len() == self.items@.len()
        &&& self.items@.len() <= room(self.queue)
        &&& room(self.queue) > 0
    }

    /// An empty topic. A capacity of none counts as one, so that a wrong setting shows as drops
    /// and not as a crash.
    pub fn new(capacity: usize) -> (r: Bus<T>)
        requires
            capacity * 16 <= isize::MAX,
        ensures
            r.well_formed(),
            r@ == (BusState::<T> {
                items: Seq::empty(),
                capacity: if capacity == 0 {
                    1
                } else {
                    capacity as nat
                },
                dropped: 0,
                published: 0,
            }),
    {
        let capacity: usize = if capacity == 0 {
            1
        } else {
            capacity
        };
        Bus { queue: new_queue(capacity), items: VecDeque::new(), dropped: 0, published: 0 }
    }

    /// Offers an item. Says whether it was taken; a full topic drops it.
    pub fn try_publish(&mut self, item: T) -> (r: bool)
        requires
            old(self).well_formed(),
        ensures
            final(self).well_formed(),
            r == (old(self)@.items.len() < old(self)@.capacity),
            final(self)@ == old(self)@.offered(item),
    {
        if push(&mut self.queue, self.published) {
            self.items.push_back(item);
            self.published = self.published.wrapping_add(1);
            true
        } else {
            self.dropped = self.dropped.wrapping_add(1);
            false
        }
    }

    /// Takes the oldest item out.
    pub fn try_recv(&mut self) -> (r: Option<T>)
        requires
            old(self).well_formed(),
        ensures
            final(self).well_formed(),
            r == (if old(self)@.items.len() == 0 {
                None
            } else {
                Some(old(self)@.items[0])
            }),
            final(self)@ == old(self)@.drained(),
    {
        match pop(&mut self.queue) {
            Some(_) => {
                let item = self.items.pop_front();
                assert(self.items@ =~= old(self)@.items.drop_first());
                item
            },
            None => None,
        }
    }

    /// How many items wait.
    pub fn len(&self) -> (r: usize)
        requires
            self.well_formed(),
        ensures
            r == self@.items.len(),
    {
        queue_len(&self.queue)
    }

    /// Whether no item waits.
    pub fn is_empty(&self) -> (r: bool)
        requires
            self.well_formed(),
        ensures
            r == (self@.items.len() == 0),
    {
        queue_len(&self.queue) == 0
    }

    /// How many items the topic has room for.
    pub fn capacity(&self) -> (r: usize)
        ensures
            r == self@.capacity,
    {
        queue_capacity(&self.queue)
    }

    /// How many items were dropped.
    pub fn dropped_count(&self) -> (r: u64)
        ensures
            r == self@.dropped,
    {
        self.dropped
    }

    /// How many items were taken.
    pub fn published_count(&self) -> (r: u64)
        ensures
            r == self@.published,
    {
        self.published
    }
}

/// The topic after every item of a list was offered, in order.
pub open spec fn offered_all<T>(bus: BusState<T>, items: Seq<T>) -> BusState<T>
    decreases items.len(),
{
    if items.len() == 0 {
        bus
    } else {
        offered_all(bus, items.drop_last()).offered(items.last())
    }
}

/// The items that come out are the ones that went in, in their order: of a list offered to an
/// empty topic the first ones stay, as many as there is room for, and the rest are dropped and
/// counted.
pub proof fn law_first_in_first_out<T>(bus: BusState<T>, items: Seq<T>)
    requires
        bus.items.len() == 0,
        bus.capacity > 0,
        bus.dropped == 0,
        bus.published == 0,
        items.len() <= u64::MAX,
    ensures
        ({
            let after = offered_all(bus, items);
            let kept = if items.len() <= bus.capacity {
                items.len()
            } else {
                bus.capacity
            };
            &&& after.items == items.take(kept as int)
            &&& after.published == kept
            &&& after.dropped == items.len() - kept
            &&& after.capacity == bus.capacity
        }),
    decreases items.len(),
{
    if items.len() > 0 {
        law_first_in_first_out(bus, items.drop_last());
        let before = offered_all(bus, items.drop_last());
        if items.len() <= bus.capacity {
            assert(items.drop_last() =~= items.take(items.len() - 1));
            assert(before.items =~= items.drop_last());
            assert(before.items.push(items.last()) =~= items.take(items.len() as int));
        } else {
            assert(items.drop_last().take(bus.capacity as int) =~= items.take(
                bus.capacity as int,
            ));
        }
    } else {
        assert(items.take(0) =~= bus.items);
    }
}

/// Nothing is lost silently: an offer raises one of the two counts, and an item is in the topic
/// afterwards exactly if it was taken.
pub proof fn law_every_offer_is_counted<T>(bus: BusState<T>, item: T)
    requires
        bus.dropped < u64::MAX,
        bus.published < u64::MAX,
    ensures
        ({
            let after = bus.offered(item);
            &&& after.dropped + after.published == bus.dropped + bus.published + 1
            &&& after.items == (if bus.items.len() < bus.capacity {
                bus.items.push(item)
            } else {
                bus.items
            })
        }),
{
}

} // verus!
