//! The raw event queue: a buffer of events and a read position per listener.
//!
//! Every operation is proved to act on the queue's model (`model`) exactly as
//! the model's transformation of the same name says.

use vstd::prelude::*;
use std::borrow::Cow;
use crate::model::{ListenerKey, QueueModel, is_min_position, lemma_extend_reaches_every_listener, lemma_min_position_exists, lemma_min_position_is_min, lemma_operations_keep_clean, lemma_peek_finish_drops_first, lemma_pull_clears_only_own, lemma_push_reaches_every_listener, lemma_remove_keeps_others};
use vstd::pervasive::{arbitrary, cloned};
use crate::slots::{ListenerSlots, slot_entries, slots_entries, slots_get, slots_insert, slots_is_empty, slots_len, slots_new, slots_remove, slots_set};
use crate::traits::{EmitResult, EmitterMut, QueueInterfaceCommon};

verus! {

/// Non-thread-safe, non-reference-counted event queue.
pub struct Queue<T> {
    listeners: ListenerSlots,
    events: Vec<T>,
}

/// The model of a queue made of these parts.
spec fn parts_model<T>(listeners: ListenerSlots, events: Seq<T>) -> QueueModel<ListenerKey, T> {
    QueueModel { positions: slot_entries(listeners), events }
}

impl<T> View for Queue<T> {
    type V = QueueModel<ListenerKey, T>;

    closed spec fn view(&self) -> QueueModel<ListenerKey, T> {
        parts_model(self.listeners, self.events@)
    }
}

impl<T> Default for Queue<T> {
    fn default() -> (q: Self)
        ensures
            q@.positions == Map::<ListenerKey, usize>::empty(),
            q@.events == Seq::<T>::empty(),
            q@.wf(),
            q@.clean(),
    {
        Queue::new()
    }
}

impl<T> QueueInterfaceCommon for Queue<T> {
    type Item = T;

    fn buffer_is_empty(&self) -> (b: bool)
        ensures
            b <==> self@.events.len() == 0,
    {
        self.events.is_empty()
    }
}

impl<T: Clone> EmitterMut for Queue<T> {
    /// Buffers the event if some listener is live; otherwise hands it back.
    fn emit<'a>(&mut self, event: Cow<'a, T>) -> (r: EmitResult<'a, T>)
        ensures
            old(self)@.has_listeners() <==> r is Delivered,
            final(self)@.wf(),
            old(self)@.clean() ==> final(self)@.clean(),
            r is Undelivered ==> r->Undelivered_0 == event && final(self)@ == old(self)@,
            r is Delivered ==> final(self)@ == old(self)@.emitted(final(self)@.events.last()),
            r is Delivered ==> match event {
                Cow::Owned(item) => final(self)@.events.last() == item,
                Cow::Borrowed(item) => cloned(*item, final(self)@.events.last()),
            },
    {
        let (listeners, mut events) = self.take_parts();
        if !slots_is_empty(&listeners) {
            let item = match event {
                Cow::Owned(item) => item,
                Cow::Borrowed(item) => item.clone(),
            };
            events.push(item);
            // a vector's length is a usize
            let _len = events.len();
            proof {
                if old(self)@.clean() {
                    lemma_operations_keep_clean(old(self)@, arbitrary(), events@.last(), arbitrary());
                }
            }
            self.put_parts(listeners, events);
            EmitResult::Delivered
        } else {
            self.put_parts(listeners, events);
            EmitResult::Undelivered(event)
        }
    }
}

impl<T> Queue<T> {
    /// Every live listener reads inside the buffer.
    #[verifier::type_invariant]
    closed spec fn inv(self) -> bool {
        self@.wf()
    }

    /// Create a new event queue, with no listener and no event.
    pub fn new() -> (q: Self)
        ensures
            q@.positions == Map::<ListenerKey, usize>::empty(),
            q@.events == Seq::<T>::empty(),
            q@.wf(),
            q@.clean(),
    {
        let q = Queue { listeners: slots_new(), events: Vec::new() };
        assert(q@.positions =~= Map::<ListenerKey, usize>::empty());
        q
    }

    /// Takes the parts out of the queue, leaving it empty.
    fn take_parts(&mut self) -> (parts: (ListenerSlots, Vec<T>))
        ensures
            parts_model(parts.0, parts.1@) == old(self)@,
            parts_model(parts.0, parts.1@).wf(),
    {
        proof {
            use_type_invariant(&*self);
        }
        let mut listeners = slots_new();
        let mut events: Vec<T> = Vec::new();
        proof {
            assert(parts_model(listeners, events@).positions.dom() =~= Set::<ListenerKey>::empty());
        }
        std::mem::swap(&mut listeners, &mut self.listeners);
        std::mem::swap(&mut events, &mut self.events);
        (listeners, events)
    }

    /// Puts parts back into the queue.
    fn put_parts(&mut self, listeners: ListenerSlots, events: Vec<T>)
        requires
            parts_model(listeners, events@).wf(),
        ensures
            final(self)@ == parts_model(listeners, events@),
    {
        *self = Queue { listeners, events };
    }

    /// Creates a subscription: a new listener that will receive the events
    /// emitted from now on.
    pub fn create_listener(&mut self) -> (key: ListenerKey)
        requires
            old(self)@.positions.dom().len() + 2 < u32::MAX,
        ensures
            !old(self)@.has_listener(key),
            final(self)@ == old(self)@.with_listener(key),
            final(self)@.wf(),
            old(self)@.clean() ==> final(self)@.clean(),
    {
        let (mut listeners, events) = self.take_parts();
        let maxidx = events.len();
        let key = slots_insert(&mut listeners, maxidx);
        proof {
            if old(self)@.clean() {
                lemma_operations_keep_clean(old(self)@, key, arbitrary(), arbitrary());
            }
        }
        self.put_parts(listeners, events);
        key
    }

    /// Removes a subscription.
    pub fn remove_listener(&mut self, key: ListenerKey)
        ensures
            final(self)@ == old(self)@.without_listener(key),
            final(self)@.wf(),
            old(self)@.clean() ==> final(self)@.clean(),
            !final(self)@.has_listener(key),
            final(self)@.positions.dom() == old(self)@.positions.dom().remove(key),
            forall|j: ListenerKey| #[trigger] old(self)@.has_listener(j) && j != key
                ==> final(self)@.pending(j) == old(self)@.pending(j),
            !final(self)@.has_listeners() ==> final(self)@.events.len() == 0,
    {
        let (mut listeners, mut events) = self.take_parts();
        proof {
            if old(self)@.clean() {
                lemma_operations_keep_clean(old(self)@, key, arbitrary(), arbitrary());
            }
        }
        // a listener at position 0 may have been holding back the cleanup,
        // and the last listener takes every event with it
        let removed = slots_remove(&mut listeners, key);
        if removed == Some(0usize) || slots_is_empty(&listeners) {
            cleanup(&mut listeners, &mut events);
        }
        proof {
            lemma_remove_keeps_others(old(self)@, key);
        }
        self.put_parts(listeners, events);
    }

    /// Get the start index of new events since last `pull`.
    fn pull(listeners: &mut ListenerSlots, events: &Vec<T>, key: ListenerKey) -> (idx: usize)
        requires
            parts_model(*old(listeners), events@).wf(),
            parts_model(*old(listeners), events@).has_listener(key),
        ensures
            idx == parts_model(*old(listeners), events@).positions[key],
            parts_model(*final(listeners), events@) == parts_model(*old(listeners), events@).with_listener(key),
    {
        let maxidx = events.len();
        let idx = match slots_get(listeners, key) {
            Some(idx) => idx,
            None => 0,
        };
        slots_set(listeners, key, maxidx);
        idx
    }

    /// Applies a function to the list of new events since last `pull`.
    pub fn pull_with<F, R>(&mut self, key: ListenerKey, f: F) -> (ret: R)
        where
            F: FnOnce(&[T]) -> R,
        requires
            old(self)@.has_listener(key),
            forall|events: &[T]| events@ == old(self)@.pending(key) ==> #[trigger] f.requires((events,)),
        ensures
            exists|events: &[T]| events@ == old(self)@.pending(key) && #[trigger] f.ensures((events,), ret),
            final(self)@ == old(self)@.pulled(key),
            final(self)@.wf(),
            old(self)@.clean() ==> final(self)@.clean(),
            final(self)@.positions.dom() == old(self)@.positions.dom(),
            final(self)@.pending(key) == Seq::<T>::empty(),
            forall|j: ListenerKey| #[trigger] old(self)@.has_listener(j) && j != key
                ==> final(self)@.pending(j) == old(self)@.pending(j),
            old(self)@.positions[key] == 0 ==> final(self)@.min_position() == 0,
    {
        let (mut listeners, mut events) = self.take_parts();
        proof {
            if old(self)@.clean() {
                lemma_operations_keep_clean(old(self)@, key, arbitrary(), arbitrary());
            }
        }
        let idx = Self::pull(&mut listeners, &events, key);
        let len = events.len();
        let seen = &events.as_slice()[idx..len];
        let ret = f(seen);
        if idx == 0 {
            // this was a blocker
            cleanup(&mut listeners, &mut events);
        }
        proof {
            lemma_pull_clears_only_own(old(self)@, key);
        }
        self.put_parts(listeners, events);
        ret
    }

    /// Get the next event since last `pull`: the first pending event of the
    /// listener, if it is live and has one.
    pub fn peek_get(&self, key: ListenerKey) -> (r: Option<&T>)
        ensures
            self@.has_listener(key) && self@.pending(key).len() > 0 ==> r == Some(&self@.pending(key)[0]),
            !(self@.has_listener(key) && self@.pending(key).len() > 0) ==> r is None,
    {
        proof {
            use_type_invariant(self);
        }
        match slots_get(&self.listeners, key) {
            Some(idx) => self.events.as_slice().get(idx),
            None => None,
        }
    }

    /// Finish with this peek, go to next event.
    pub fn peek_finish(&mut self, key: ListenerKey)
        ensures
            final(self)@ == old(self)@.peek_finished(key),
            final(self)@.wf(),
            old(self)@.clean() ==> final(self)@.clean(),
    {
        let (mut listeners, mut events) = self.take_parts();
        proof {
            if old(self)@.clean() {
                lemma_operations_keep_clean(old(self)@, key, arbitrary(), arbitrary());
            }
        }
        let maxidx = events.len();
        let was_blocker = match slots_get(&listeners, key) {
            Some(idx) => {
                if idx < maxidx {
                    // only increment the idx if it is in bounds
                    slots_set(&mut listeners, key, idx + 1);
                    idx + 1 == 1
                } else {
                    false
                }
            },
            None => false,
        };
        if was_blocker {
            // this was a blocker
            cleanup(&mut listeners, &mut events);
        }
        proof {
            if old(self)@.has_listener(key) {
                lemma_peek_finish_drops_first(old(self)@, key);
            }
        }
        self.put_parts(listeners, events);
    }

    /// Buffers an event, whether or not some listener is live.
    pub(crate) fn push_event(&mut self, event: T)
        ensures
            final(self)@ == old(self)@.pushed(event),
            final(self)@.wf(),
    {
        let (listeners, mut events) = self.take_parts();
        events.push(event);
        // a vector's length is a usize
        let _len = events.len();
        self.put_parts(listeners, events);
    }

    /// Buffers events, whether or not some listener is live.
    pub(crate) fn append_events(&mut self, more: Vec<T>)
        ensures
            final(self)@ == old(self)@.appended(more@),
            final(self)@.wf(),
    {
        let (listeners, mut events) = self.take_parts();
        let mut more = more;
        events.append(&mut more);
        // a vector's length is a usize
        let _len = events.len();
        proof {
            lemma_push_reaches_every_listener(old(self)@, more@);
        }
        self.put_parts(listeners, events);
    }

    /// Whether some listener is live.
    pub fn has_listeners(&self) -> (b: bool)
        ensures
            b == self@.has_listeners(),
    {
        !slots_is_empty(&self.listeners)
    }

    /// Whether `key` is a live listener.
    pub fn contains_listener(&self, key: ListenerKey) -> (b: bool)
        ensures
            b == self@.has_listener(key),
    {
        slots_get(&self.listeners, key).is_some()
    }

    /// The number of live listeners.
    pub fn listeners_len(&self) -> (n: usize)
        ensures
            n == self@.positions.dom().len(),
    {
        slots_len(&self.listeners)
    }

    /// The number of buffered events.
    pub fn events_len(&self) -> (n: usize)
        ensures
            n == self@.events.len(),
    {
        self.events.len()
    }

    /// Emits several events at once; they are buffered only if some
    /// listener is live.
    pub fn extend(&mut self, iter: Vec<T>)
        ensures
            final(self)@ == old(self)@.extended(iter@),
            final(self)@.wf(),
            old(self)@.clean() ==> final(self)@.clean(),
    {
        let (listeners, mut events) = self.take_parts();
        proof {
            if old(self)@.clean() {
                lemma_operations_keep_clean(old(self)@, arbitrary(), arbitrary(), iter@);
            }
        }
        if !slots_is_empty(&listeners) {
            let mut iter = iter;
            events.append(&mut iter);
            // a vector's length is a usize
            let _len = events.len();
            proof {
                lemma_extend_reaches_every_listener(old(self)@, iter@);
            }
        }
        self.put_parts(listeners, events);
    }
}

/// Removes all events that have been already seen by all listeners.
fn cleanup<T>(listeners: &mut ListenerSlots, events: &mut Vec<T>)
    requires
        parts_model(*old(listeners), old(events)@).wf(),
    ensures
        parts_model(*final(listeners), final(events)@) == parts_model(*old(listeners), old(events)@).cleaned(),
{
    if slots_is_empty(listeners) {
        // no listener can see any event again
        events.clear();
        proof {
            assert(parts_model(*listeners, events@) =~= parts_model(*old(listeners), old(events)@).cleaned());
        }
        return;
    }
    let entries = slots_entries(listeners);
    let ghost q = parts_model(*listeners, events@);
    let ghost keys = entries@.map_values(|p: (ListenerKey, usize)| p.0);
    // the smallest read position, or 0 when there is no listener
    let mut min_idx: usize = 0;
    let mut i: usize = 0;
    while i < entries.len()
        invariant
            0 <= i <= entries@.len(),
            q == parts_model(*listeners, events@),
            q.positions.dom() == keys.to_set(),
            keys.len() == entries@.len(),
            forall|j: int| 0 <= j < entries@.len() ==> #[trigger] keys[j] == entries@[j].0,
            forall|j: int| 0 <= j < entries@.len() ==> q.positions.dom().contains(#[trigger] entries@[j].0)
                && q.positions[entries@[j].0] == entries@[j].1,
            i == 0 ==> min_idx == 0,
            i > 0 ==> (exists|j: int| 0 <= j < i && entries@[j].1 == min_idx),
            forall|j: int| 0 <= j < i ==> min_idx <= #[trigger] entries@[j].1,
        decreases entries@.len() - i,
    {
        if i == 0 || entries[i].1 < min_idx {
            min_idx = entries[i].1;
        }
        i = i + 1;
    }
    proof {
        if entries@.len() > 0 {
            let j = choose|j: int| 0 <= j < entries@.len() && entries@[j].1 == min_idx;
            assert(is_min_position(q.positions, min_idx)) by {
                assert(q.positions.dom().contains(entries@[j].0));
                assert forall|k: ListenerKey| q.positions.dom().contains(k)
                    implies min_idx <= #[trigger] q.positions[k] by {
                    assert(keys.to_set().contains(k));
                    let jj = choose|jj: int| 0 <= jj < keys.len() && keys[jj] == k;
                    assert(entries@[jj].0 == k);
                }
            }
            lemma_min_position_is_min(q, min_idx);
        } else {
            assert(keys.to_set() =~= Set::<ListenerKey>::empty());
        }
    }
    if min_idx == 0 {
        return;
    }
    let mut i: usize = 0;
    while i < entries.len()
        invariant
            0 <= i <= entries@.len(),
            min_idx == q.min_position(),
            min_idx > 0,
            q.wf(),
            q.positions.dom() == keys.to_set(),
            keys.len() == entries@.len(),
            forall|j: int| 0 <= j < entries@.len() ==> #[trigger] keys[j] == entries@[j].0,
            forall|j: int| 0 <= j < entries@.len() ==> q.positions.dom().contains(#[trigger] entries@[j].0)
                && q.positions[entries@[j].0] == entries@[j].1,
            forall|j: int, l: int| 0 <= j < l < entries@.len() ==> #[trigger] entries@[j].0 != #[trigger] entries@[l].0,
            slot_entries(*listeners).dom() == q.positions.dom(),
            events@ == q.events,
            forall|j: int| 0 <= j < i ==> #[trigger] slot_entries(*listeners)[entries@[j].0]
                == entries@[j].1 - min_idx,
            forall|j: int| i <= j < entries@.len() ==> #[trigger] slot_entries(*listeners)[entries@[j].0]
                == entries@[j].1,
        decreases entries@.len() - i,
    {
        proof {
            lemma_min_position_exists(q.positions);
            assert(q.positions.dom().contains(entries@[i as int].0));
        }
        let ghost before = slot_entries(*listeners);
        slots_set(listeners, entries[i].0, entries[i].1 - min_idx);
        proof {
            assert forall|j: int| 0 <= j < entries@.len() && j != i implies
                #[trigger] slot_entries(*listeners)[entries@[j].0] == before[entries@[j].0] by {
                assert(entries@[j].0 != entries@[i as int].0);
            }
            assert(slot_entries(*listeners).dom() =~= before.dom());
        }
        i = i + 1;
    }
    let tail = events.split_off(min_idx);
    *events = tail;
    proof {
        assert forall|k: ListenerKey| q.positions.dom().contains(k) implies
            #[trigger] slot_entries(*listeners)[k] == (q.positions[k] - min_idx) as usize by {
            assert(keys.to_set().contains(k));
            let jj = choose|jj: int| 0 <= jj < keys.len() && keys[jj] == k;
            assert(entries@[jj].0 == k);
        }
        assert(slot_entries(*listeners) =~= q.positions.map_values(|p: usize| (p - min_idx) as usize));
        assert(events@ =~= q.events.subrange(min_idx as int, q.events.len() as int));
    }
}

} // verus!
