//! The event queue behind the widget `Event` handles: listeners identified
//! by sequential numbers, events always buffered, and an explicit cleanup.

use vstd::prelude::*;
use std::collections::HashMap;
use vstd::std_specs::iter::IteratorSpec;
use crate::model::{QueueModel, is_min_position, lemma_cleanup_keeps_pending, lemma_min_position_exists, lemma_min_position_is_min, lemma_new_listener_starts_empty};
use vstd::pervasive::cloned;

verus! {

broadcast use vstd::std_specs::hash::group_hash_axioms;

/// Collects the (key, position) pairs of a map of read positions.
fn position_entries(m: &HashMap<u64, usize>) -> (r: Vec<(u64, usize)>)
    ensures
        m@.dom() == r@.map_values(|p: (u64, usize)| p.0).to_set(),
        forall|i: int| 0 <= i < r@.len() ==> #[trigger] m@.dom().contains(r@[i].0) && m@[r@[i].0] == r@[i].1,
        forall|i: int, j: int| 0 <= i < j < r@.len() ==> #[trigger] r@[i].0 != #[trigger] r@[j].0,
{
    let mut r: Vec<(u64, usize)> = Vec::new();
    let ghost g = vstd::std_specs::hash::spec_hash_map_iter(m).remaining();
    for kv in it: m.iter()
        invariant
            it.seq() == g,
            r@.len() == it.index(),
            g.len() == m@.dom().len(),
            g.no_duplicates(),
            forall|k: u64| #[trigger] m@.contains_key(k) ==> g.contains((&k, &m@[k])),
            forall|i: int| 0 <= i < g.len() ==> #[trigger] m@.contains_key(*g[i].0) && m@[*g[i].0] == *g[i].1,
            forall|i: int| 0 <= i < r@.len() ==> #[trigger] r@[i] == (*g[i].0, *g[i].1),
    {
        r.push((*kv.0, *kv.1));
    }
    proof {
        let keys = r@.map_values(|p: (u64, usize)| p.0);
        assert forall|k: u64| m@.dom().contains(k) implies keys.to_set().contains(k) by {
            let i = choose|i: int| 0 <= i < g.len() && g[i] == (&k, &m@[k]);
            assert(keys[i] == k);
        }
        assert forall|k: u64| keys.to_set().contains(k) implies m@.dom().contains(k) by {
            let i = choose|i: int| 0 <= i < keys.len() && keys[i] == k;
            assert(r@[i] == (*g[i].0, *g[i].1));
        }
        assert(m@.dom() =~= keys.to_set());
        assert forall|i: int, j: int| 0 <= i < j < r@.len() implies #[trigger] r@[i].0 != #[trigger] r@[j].0 by {
            if r@[i].0 == r@[j].0 {
                assert(r@[i] == (*g[i].0, *g[i].1));
                assert(r@[j] == (*g[j].0, *g[j].1));
                assert(m@.contains_key(*g[i].0) && m@[*g[i].0] == *g[i].1);
                assert(m@.contains_key(*g[j].0) && m@[*g[j].0] == *g[j].1);
                assert(g[i] == g[j]);
            }
        }
    }
    r
}


/// The model of a queue made of these parts.
spec fn parts_model<T>(listeners: Map<u64, usize>, events: Seq<T>) -> QueueModel<u64, T> {
    QueueModel { positions: listeners, events }
}

/// Removes all events that every listener has seen, moving every read
/// position back by their number.
fn cleanup_parts<T>(listeners: &mut HashMap<u64, usize>, events: &mut Vec<T>)
    requires
        parts_model(old(listeners)@, old(events)@).wf(),
    ensures
        parts_model(final(listeners)@, final(events)@) == parts_model(old(listeners)@, old(events)@).cleaned(),
{
    if listeners.is_empty() {
        // no listener can see any event again
        events.clear();
        proof {
            assert(parts_model(listeners@, events@) =~= parts_model(old(listeners)@, old(events)@).cleaned());
        }
        return;
    }
    let entries = position_entries(listeners);
    let ghost q = parts_model(listeners@, events@);
    let ghost keys = entries@.map_values(|p: (u64, usize)| p.0);
    let mut min_idx: usize = 0;
    let mut i: usize = 0;
    while i < entries.len()
        invariant
            0 <= i <= entries@.len(),
            q == parts_model(listeners@, events@),
            q.positions.dom() == keys.to_set(),
            keys.len() == entries@.len(),
            forall|j: int| 0 <= j < entries@.len() ==> #[trigger] keys[j] == entries@[j].0,
            forall|j: int| 0 <= j < entries@.len() ==> q.positions.dom().contains(#[trigger] entries@[j].0)
                && q.positions[entries@[j].0] == entries@[j].1,
            i == 0 ==> min_idx == 0,
            i > 0 ==> (exists|j: int| 0 <= j < i && entries@[j].1 == min_idx),
            forall|j: int| 0 <= j < i ==> min_idx <= #[trigger] entries@[j].1,
        decreases entries@.len() - i,
    {
        if i == 0 || entries[i].1 < min_idx {
            min_idx = entries[i].1;
        }
        i = i + 1;
    }
    proof {
        if entries@.len() > 0 {
            let j = choose|j: int| 0 <= j < entries@.len() && entries@[j].1 == min_idx;
            assert(is_min_position(q.positions, min_idx)) by {
                assert(q.positions.dom().contains(entries@[j].0));
                assert forall|k: u64| q.positions.dom().contains(k)
                    implies min_idx <= #[trigger] q.positions[k] by {
                    assert(keys.to_set().contains(k));
                    let jj = choose|jj: int| 0 <= jj < keys.len() && keys[jj] == k;
                    assert(entries@[jj].0 == k);
                }
            }
            lemma_min_position_is_min(q, min_idx);
        } else {
            assert(keys.to_set() =~= Set::<u64>::empty());
        }
    }
    if min_idx == 0 {
        return;
    }
    let mut i: usize = 0;
    while i < entries.len()
        invariant
            0 <= i <= entries@.len(),
            min_idx == q.min_position(),
            min_idx > 0,
            q.wf(),
            q.positions.dom() == keys.to_set(),
            keys.len() == entries@.len(),
            forall|j: int| 0 <= j < entries@.len() ==> #[trigger] keys[j] == entries@[j].0,
            forall|j: int| 0 <= j < entries@.len() ==> q.positions.dom().contains(#[trigger] entries@[j].0)
                && q.positions[entries@[j].0] == entries@[j].1,
            forall|j: int, l: int| 0 <= j < l < entries@.len() ==> #[trigger] entries@[j].0 != #[trigger] entries@[l].0,
            listeners@.dom() == q.positions.dom(),
            events@ == q.events,
            forall|j: int| 0 <= j < i ==> #[trigger] listeners@[entries@[j].0] == entries@[j].1 - min_idx,
            forall|j: int| i <= j < entries@.len() ==> #[trigger] listeners@[entries@[j].0] == entries@[j].1,
        decreases entries@.len() - i,
    {
        proof {
            lemma_min_position_exists(q.positions);
            assert(q.positions.dom().contains(entries@[i as int].0));
        }
        let ghost before = listeners@;
        listeners.insert(entries[i].0, entries[i].1 - min_idx);
        proof {
            assert forall|j: int| 0 <= j < entries@.len() && j != i implies
                #[trigger] listeners@[entries@[j].0] == before[entries@[j].0] by {
                assert(entries@[j].0 != entries@[i as int].0);
            }
            assert(listeners@.dom() =~= before.dom());
        }
        i = i + 1;
    }
    proof {
        lemma_min_position_exists(q.positions);
    }
    let tail = events.split_off(min_idx);
    *events = tail;
    proof {
        assert forall|k: u64| q.positions.dom().contains(k) implies
            #[trigger] listeners@[k] == (q.positions[k] - min_idx) as usize by {
            assert(keys.to_set().contains(k));
            let jj = choose|jj: int| 0 <= jj < keys.len() && keys[jj] == k;
            assert(entries@[jj].0 == k);
        }
        assert(listeners@ =~= q.positions.map_values(|p: usize| (p - min_idx) as usize));
        assert(events@ =~= q.events.subrange(min_idx as int, q.events.len() as int));
    }
}

/// Event queue behind the widget `Event` handles.
pub struct EventIntern<T> {
    listeners: HashMap<u64, usize>,
    next_listener_id: u64,
    events: Vec<T>,
}

impl<T> View for EventIntern<T> {
    type V = QueueModel<u64, T>;

    closed spec fn view(&self) -> QueueModel<u64, T> {
        parts_model(self.listeners@, self.events@)
    }
}

impl<T> EventIntern<T> {
    /// The queue is well-formed and every listener number was handed out
    /// before.
    #[verifier::type_invariant]
    closed spec fn inv(self) -> bool {
        &&& self@.wf()
        &&& forall|k: u64| #[trigger] self@.positions.dom().contains(k) ==> k < self.next_listener_id
    }

    /// The number the next listener will get.
    pub closed spec fn next_id(self) -> u64 {
        self.next_listener_id
    }

    /// The number the next listener will get.
    pub fn next_listener_id(&self) -> (id: u64)
        ensures
            id == self.next_id(),
    {
        self.next_listener_id
    }

    /// A queue with no listener and no event.
    pub fn new() -> (q: Self)
        ensures
            q@.positions == Map::<u64, usize>::empty(),
            q@.events == Seq::<T>::empty(),
            q.next_id() == 0,
    {
        let q = EventIntern { listeners: HashMap::new(), next_listener_id: 0, events: Vec::new() };
        assert(q@.positions.dom() =~= Set::<u64>::empty());
        q
    }

    /// Takes the parts out of the queue, leaving it empty.
    fn take_parts(&mut self) -> (parts: (HashMap<u64, usize>, Vec<T>))
        ensures
            parts_model(parts.0@, parts.1@) == old(self)@,
            parts_model(parts.0@, parts.1@).wf(),
            forall|k: u64| #[trigger] parts.0@.dom().contains(k) ==> k < old(self).next_id(),
            final(self).next_id() == old(self).next_id(),
    {
        proof {
            use_type_invariant(&*self);
        }
        let mut listeners = HashMap::new();
        let mut events: Vec<T> = Vec::new();
        proof {
            assert(listeners@.dom() =~= Set::<u64>::empty());
        }
        std::mem::swap(&mut listeners, &mut self.listeners);
        std::mem::swap(&mut events, &mut self.events);
        (listeners, events)
    }

    /// Puts parts back into the queue.
    fn put_parts(&mut self, listeners: HashMap<u64, usize>, next_listener_id: u64, events: Vec<T>)
        requires
            parts_model(listeners@, events@).wf(),
            forall|k: u64| #[trigger] listeners@.dom().contains(k) ==> k < next_listener_id,
        ensures
            final(self)@ == parts_model(listeners@, events@),
            final(self).next_id() == next_listener_id,
    {
        *self = EventIntern { listeners, next_listener_id, events };
    }

    /// Pushes/emits an event; it is buffered even with no listener.
    pub fn push(&mut self, event: T)
        ensures
            final(self)@ == old(self)@.pushed(event),
            final(self).next_id() == old(self).next_id(),
    {
        let (listeners, mut events) = self.take_parts();
        events.push(event);
        // a vector's length is a usize
        let _len = events.len();
        let next = self.next_listener_id;
        self.put_parts(listeners, next, events);
    }

    /// Adds a listener, numbered with the next number, that will receive the
    /// events pushed from now on.
    pub fn new_listener(&mut self) -> (id: u64)
        requires
            old(self).next_id() < u64::MAX,
        ensures
            id == old(self).next_id(),
            !old(self)@.has_listener(id),
            final(self)@ == old(self)@.with_listener(id),
            final(self).next_id() == id + 1,
    {
        let (mut listeners, events) = self.take_parts();
        let id = self.next_listener_id;
        let maxidx = events.len();
        listeners.insert(id, maxidx);
        proof {
            lemma_new_listener_starts_empty(old(self)@, id);
        }
        self.put_parts(listeners, id + 1, events);
        id
    }

    /// Returns a list of new events since the last `peek` of listener `id`.
    pub fn peek(&mut self, id: u64) -> (seen: Vec<T>)
        where
            T: Clone,
        requires
            old(self)@.has_listener(id),
        ensures
            seen@.len() == old(self)@.pending(id).len(),
            forall|i: int| 0 <= i < seen@.len() ==> cloned(#[trigger] old(self)@.pending(id)[i], seen@[i]),
            final(self)@ == old(self)@.with_listener(id),
            final(self).next_id() == old(self).next_id(),
    {
        let (mut listeners, events) = self.take_parts();
        let maxidx = events.len();
        let idx = match listeners.get(&id) {
            Some(idx) => *idx,
            None => 0,
        };
        listeners.insert(id, maxidx);
        let mut seen: Vec<T> = Vec::new();
        let mut i = idx;
        while i < maxidx
            invariant
                idx <= i <= maxidx,
                maxidx == events@.len(),
                idx == old(self)@.positions[id],
                events@ == old(self)@.events,
                seen@.len() == i - idx,
                forall|j: int| 0 <= j < seen@.len() ==> cloned(#[trigger] events@[idx + j], seen@[j]),
            decreases maxidx - i,
        {
            seen.push(events[i].clone());
            i = i + 1;
        }
        proof {
            assert forall|j: int| 0 <= j < seen@.len() implies cloned(#[trigger] old(self)@.pending(id)[j], seen@[j]) by {
                assert(old(self)@.pending(id)[j] == events@[idx + j]);
            }
            assert(listeners@.dom() =~= old(self)@.positions.dom().insert(id));
        }
        let next = self.next_listener_id;
        self.put_parts(listeners, next, events);
        seen
    }

    /// Drops listener `id` and removes the events that every remaining
    /// listener has seen.
    pub fn remove_listener(&mut self, id: u64)
        ensures
            final(self)@ == old(self)@.forgotten(id).cleaned(),
            final(self).next_id() == old(self).next_id(),
    {
        let (mut listeners, mut events) = self.take_parts();
        listeners.remove(&id);
        cleanup_parts(&mut listeners, &mut events);
        proof {
            lemma_cleanup_keeps_pending(old(self)@.forgotten(id));
        }
        let next = self.next_listener_id;
        self.put_parts(listeners, next, events);
    }

    /// Removes all events that have been already seen by all listeners.
    ///
    /// Call this ocassionally to free up memory
    pub fn cleanup(&mut self)
        ensures
            final(self)@ == old(self)@.cleaned(),
            final(self).next_id() == old(self).next_id(),
    {
        let (mut listeners, mut events) = self.take_parts();
        cleanup_parts(&mut listeners, &mut events);
        proof {
            lemma_cleanup_keeps_pending(old(self)@);
        }
        let next = self.next_listener_id;
        self.put_parts(listeners, next, events);
    }

    /// Whether `id` is a live listener.
    pub fn contains_listener(&self, id: u64) -> (b: bool)
        ensures
            b == self@.has_listener(id),
    {
        self.listeners.contains_key(&id)
    }

    /// Returns the number of listeners
    pub fn listener_len(&self) -> (n: usize)
        ensures
            n == self@.positions.dom().len(),
    {
        self.listeners.len()
    }

    /// Returns the number of events
    pub fn event_len(&self) -> (n: usize)
        ensures
            n == self@.events.len(),
    {
        self.events.len()
    }
}

} // verus!
