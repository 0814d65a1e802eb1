//! The state behind a queue whose subscribers receive copies of the events
//! through channels, beside the events buffered for its listeners.

use vstd::prelude::*;
use std::sync::mpsc;
use vstd::pervasive::cloned;
use crate::chans::keep_flagged;
use crate::thirdparty::flagged;
use crate::intern::Queue;
use crate::model::ListenerKey;
use crate::thirdparty::mpsc_send;

verus! {

/// A copy of each event, in order.
fn copy_events<T: Clone>(events: &Vec<T>) -> (copies: Vec<T>)
    ensures
        copies@.len() == events@.len(),
        forall|i: int| 0 <= i < events@.len() ==> #[trigger] cloned(events@[i], copies@[i]),
{
    let mut copies: Vec<T> = Vec::new();
    let mut i: usize = 0;
    while i < events.len()
        invariant
            0 <= i <= events@.len(),
            copies@.len() == i,
            forall|j: int| 0 <= j < i ==> #[trigger] cloned(events@[j], copies@[j]),
        decreases events@.len() - i,
    {
        let copy = events[i].clone();
        copies.push(copy);
        i = i + 1;
    }
    copies
}

/// `subscriber` was handed the first `accepted` of `values`, in order,
/// through `mpsc::Sender::send`, and accepted each; when it accepted fewer
/// than all, it was handed the next one and refused it.  The body names the
/// crate's private wrapper of that call, so it stays closed.
pub closed spec fn sent_in_order<T>(subscriber: mpsc::Sender<T>, values: Seq<T>, accepted: int) -> bool {
    &&& 0 <= accepted <= values.len()
    &&& forall|j: int| 0 <= j < accepted ==> #[trigger] call_ensures(mpsc_send::<T>, (&subscriber, values[j]), Ok::<(), T>(()))
    &&& accepted < values.len() ==> exists|r: Result<(), T>|
        r is Err && #[trigger] call_ensures(mpsc_send::<T>, (&subscriber, values[accepted]), r)
}

/// At most all the values are accepted.
pub proof fn lemma_sent_in_order_bounds<T>(subscriber: mpsc::Sender<T>, values: Seq<T>, accepted: int)
    requires
        sent_in_order(subscriber, values, accepted),
    ensures
        0 <= accepted <= values.len(),
{
}

/// Subscriber `i` was handed `copies[i]`, one copy of each event in order,
/// until it refused one; it accepted `accepted[i]` of them, and `alive[i]`
/// tells whether it accepted them all.
pub open spec fn copies_sent<T: Clone>(
    subscribers: Seq<mpsc::Sender<T>>,
    events: Seq<T>,
    copies: Seq<Seq<T>>,
    accepted: Seq<int>,
    alive: Seq<bool>,
) -> bool {
    &&& copies.len() == subscribers.len()
    &&& accepted.len() == subscribers.len()
    &&& alive.len() == subscribers.len()
    &&& forall|i: int|
        #![trigger copies[i]]
        0 <= i < subscribers.len() ==> {
            &&& copies[i].len() == events.len()
            &&& forall|j: int| 0 <= j < events.len() ==> #[trigger] cloned(events[j], copies[i][j])
            &&& sent_in_order(subscribers[i], copies[i], accepted[i])
            &&& (alive[i] <==> accepted[i] == events.len())
        }
}

/// Sends the values to `subscriber`, in order, stopping at the first one
/// refused; returns how many were accepted.
fn send_all<T>(subscriber: &mpsc::Sender<T>, values: Vec<T>) -> (accepted: usize)
    ensures
        sent_in_order(*subscriber, values@, accepted as int),
{
    let ghost all = values@;
    let mut rest = values;
    let n = rest.len();
    let mut accepted: usize = 0;
    while accepted < n
        invariant
            all == values@,
            n == all.len(),
            0 <= accepted <= n,
            rest@ == all.subrange(accepted as int, n as int),
            forall|j: int| 0 <= j < accepted ==> #[trigger] call_ensures(mpsc_send::<T>, (subscriber, all[j]), Ok::<(), T>(())),
        decreases n - accepted,
    {
        let value = rest.remove(0);
        proof {
            assert(value == all[accepted as int]);
        }
        let sent = mpsc_send(subscriber, value);
        match sent {
            Ok(u) => {
                proof {
                    assert(u == ());
                    assert(sent == Ok::<(), T>(()));
                }
            },
            Err(_) => {
                proof {
                    assert(call_ensures(mpsc_send::<T>, (subscriber, all[accepted as int]), sent));
                }
                return accepted;
            },
        }
        accepted = accepted + 1;
        proof {
            assert(rest@ =~= all.subrange(accepted as int, n as int));
        }
    }
    accepted
}

/// The state of a queue with copying subscribers.
#[verifier::reject_recursive_types(T)]
pub struct Intern<T> {
    /// The buffered events and their listeners.
    pub ev: Queue<T>,
    /// The channels through which subscribers receive copies of the events.
    pub subscribers: Vec<mpsc::Sender<T>>,
}

impl<T> Intern<T> {
    /// No event, no listener, no subscriber.
    pub fn new() -> (i: Self)
        ensures
            i.ev@.positions == Map::<ListenerKey, usize>::empty(),
            i.ev@.events == Seq::<T>::empty(),
            i.subscribers@.len() == 0,
    {
        Intern { ev: Queue::new(), subscribers: Vec::new() }
    }

    /// Adds a subscriber, sent copies of the events from now on.
    pub fn subscribe(&mut self, tx: mpsc::Sender<T>)
        ensures
            final(self).subscribers@ == old(self).subscribers@.push(tx),
            final(self).ev == old(self).ev,
    {
        self.subscribers.push(tx);
    }
}

impl<T: Clone> Intern<T> {
    /// Sends each subscriber, in order, a copy of each of `events`, in
    /// order; a subscriber stops being sent events at its first refusal.
    /// Keeps, in their order, the subscribers that accepted every copy.
    fn send_to_subscribers(&mut self, events: &Vec<T>)
        ensures
            final(self).ev == old(self).ev,
            exists|copies: Seq<Seq<T>>, accepted: Seq<int>, alive: Seq<bool>|
                #[trigger] copies_sent(old(self).subscribers@, events@, copies, accepted, alive)
                    && final(self).subscribers@ == flagged(old(self).subscribers@, alive),
    {
        let mut subscribers: Vec<mpsc::Sender<T>> = Vec::new();
        std::mem::swap(&mut subscribers, &mut self.subscribers);
        let mut alive: Vec<bool> = Vec::new();
        let ghost mut copies_made: Seq<Seq<T>> = Seq::empty();
        let ghost mut accepted_counts: Seq<int> = Seq::empty();
        let mut k: usize = 0;
        while k < subscribers.len()
            invariant
                0 <= k <= subscribers@.len(),
                subscribers@ == old(self).subscribers@,
                self.ev == old(self).ev,
                alive@.len() == k,
                copies_made.len() == k,
                accepted_counts.len() == k,
                forall|i: int|
                    #![trigger copies_made[i]]
                    0 <= i < k ==> {
                        &&& copies_made[i].len() == events@.len()
                        &&& forall|j: int| 0 <= j < events@.len() ==> #[trigger] cloned(events@[j], copies_made[i][j])
                        &&& sent_in_order(subscribers@[i], copies_made[i], accepted_counts[i])
                        &&& (alive@[i] <==> accepted_counts[i] == events@.len())
                    },
            decreases subscribers@.len() - k,
        {
            let copies = copy_events(events);
            let ghost made = copies@;
            let accepted = send_all(&subscribers[k], copies);
            proof {
                lemma_sent_in_order_bounds(subscribers@[k as int], made, accepted as int);
                copies_made = copies_made.push(made);
                accepted_counts = accepted_counts.push(accepted as int);
            }
            alive.push(accepted == events.len());
            k = k + 1;
        }
        proof {
            assert(copies_sent(old(self).subscribers@, events@, copies_made, accepted_counts, alive@));
        }
        self.subscribers = keep_flagged(subscribers, alive);
    }

    /// Sends a copy of the event to every subscriber, dropping those that
    /// refuse it, and buffers the event itself if some listener is live.
    /// Tells whether anyone took it: a live listener, or a subscriber that
    /// remains.
    pub fn push(&mut self, event: T) -> (r: bool)
        ensures
            exists|copies: Seq<Seq<T>>, accepted: Seq<int>, alive: Seq<bool>|
                #[trigger] copies_sent(old(self).subscribers@, seq![event], copies, accepted, alive)
                    && final(self).subscribers@ == flagged(old(self).subscribers@, alive),
            final(self).ev@ == old(self).ev@.emitted(event),
            r == (old(self).ev@.has_listeners() || final(self).subscribers@.len() > 0),
    {
        let mut events = vec![event];
        proof {
            assert(events@ =~= seq![event]);
        }
        self.send_to_subscribers(&events);
        let event = events.pop().unwrap();
        if self.ev.has_listeners() {
            self.ev.push_event(event);
            true
        } else {
            self.subscribers.len() > 0
        }
    }

    /// Sends copies of the events to every subscriber, in order, dropping a
    /// subscriber at its first refusal, and buffers them if some listener is
    /// live.  Tells whether anyone took them: a live listener, or a
    /// subscriber that remains.
    pub fn extend(&mut self, events: Vec<T>) -> (r: bool)
        ensures
            exists|copies: Seq<Seq<T>>, accepted: Seq<int>, alive: Seq<bool>|
                #[trigger] copies_sent(old(self).subscribers@, events@, copies, accepted, alive)
                    && final(self).subscribers@ == flagged(old(self).subscribers@, alive),
            final(self).ev@ == old(self).ev@.extended(events@),
            r == (old(self).ev@.has_listeners() || final(self).subscribers@.len() > 0),
    {
        self.send_to_subscribers(&events);
        if self.ev.has_listeners() {
            self.ev.extend(events);
            true
        } else {
            self.subscribers.len() > 0
        }
    }
}

} // verus!
