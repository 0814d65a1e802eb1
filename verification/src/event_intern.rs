//! The event queue behind the legacy `Event` handles:
//! like the raw queue, except that pushing always buffers the event, even
//! when no listener is live.

use vstd::prelude::*;
use crate::intern::Queue;
use crate::model::{ListenerKey, QueueModel};

verus! {

/// Event queue that buffers every pushed event.
pub struct EventIntern<T> {
    queue: Queue<T>,
}

impl<T> View for EventIntern<T> {
    type V = QueueModel<ListenerKey, T>;

    closed spec fn view(&self) -> QueueModel<ListenerKey, T> {
        self.queue@
    }
}

impl<T> Default for EventIntern<T> {
    fn default() -> (q: Self)
        ensures
            q@.positions == Map::<ListenerKey, usize>::empty(),
            q@.events == Seq::<T>::empty(),
            q@.wf(),
    {
        EventIntern { queue: Queue::new() }
    }
}

impl<T> EventIntern<T> {
    /// Create a new event queue
    pub fn new() -> (q: Self)
        ensures
            q@.positions == Map::<ListenerKey, usize>::empty(),
            q@.events == Seq::<T>::empty(),
            q@.wf(),
    {
        EventIntern { queue: Queue::new() }
    }

    /// Creates a subscription
    pub fn create_listener(&mut self) -> (key: ListenerKey)
        requires
            old(self)@.positions.dom().len() + 2 < u32::MAX,
        ensures
            !old(self)@.has_listener(key),
            final(self)@ == old(self)@.with_listener(key),
            final(self)@.wf(),
    {
        self.queue.create_listener()
    }

    /// Removes a subscription
    pub fn remove_listener(&mut self, key: ListenerKey)
        ensures
            final(self)@ == old(self)@.without_listener(key),
            final(self)@.wf(),
            !final(self)@.has_listener(key),
            final(self)@.positions.dom() == old(self)@.positions.dom().remove(key),
            forall|j: ListenerKey| #[trigger] old(self)@.has_listener(j) && j != key
                ==> final(self)@.pending(j) == old(self)@.pending(j),
            !final(self)@.has_listeners() ==> final(self)@.events.len() == 0,
    {
        self.queue.remove_listener(key)
    }

    /// Applies a function to the list of new events since last `pull`/`pull_with`
    pub fn pull_with<F, R>(&mut self, key: ListenerKey, f: F) -> (ret: R)
        where
            F: FnOnce(&[T]) -> R,
        requires
            old(self)@.has_listener(key),
            forall|events: &[T]| events@ == old(self)@.pending(key) ==> #[trigger] f.requires((events,)),
        ensures
            exists|events: &[T]| events@ == old(self)@.pending(key) && #[trigger] f.ensures((events,), ret),
            final(self)@ == old(self)@.pulled(key),
            final(self)@.wf(),
            final(self)@.positions.dom() == old(self)@.positions.dom(),
            final(self)@.pending(key) == Seq::<T>::empty(),
            forall|j: ListenerKey| #[trigger] old(self)@.has_listener(j) && j != key
                ==> final(self)@.pending(j) == old(self)@.pending(j),
            old(self)@.positions[key] == 0 ==> final(self)@.min_position() == 0,
    {
        self.queue.pull_with(key, f)
    }

    /// Pushes/emits an event
    pub fn push(&mut self, event: T)
        ensures
            final(self)@ == old(self)@.pushed(event),
            final(self)@.wf(),
    {
        self.queue.push_event(event)
    }

    /// Emits multiple events in one go
    pub fn extend(&mut self, events: Vec<T>)
        ensures
            final(self)@ == old(self)@.appended(events@),
            final(self)@.wf(),
    {
        self.queue.append_events(events)
    }

    /// Whether `key` is a live listener.
    pub fn contains_listener(&self, key: ListenerKey) -> (b: bool)
        ensures
            b == self@.has_listener(key),
    {
        self.queue.contains_listener(key)
    }

    /// Returns the number of listeners
    pub fn listener_len(&self) -> (n: usize)
        ensures
            n == self@.positions.dom().len(),
    {
        self.queue.listeners_len()
    }

    /// Returns the number of events
    pub fn event_len(&self) -> (n: usize)
        ensures
            n == self@.events.len(),
    {
        self.queue.events_len()
    }
}

/// The interface of the shared event handles: pushing events and reading the
/// queue's sizes, through a shared reference.
pub trait GenericEventInterface<T>: Clone + Default {
    /// Pushes/emits an event
    fn push(&self, event: T);

    /// Emits multiple events in one go
    fn extend(&self, events: Vec<T>);

    /// Returns the number of listeners
    fn listener_len(&self) -> usize;

    /// Returns the number of events
    fn event_len(&self) -> usize;
}

} // verus!
