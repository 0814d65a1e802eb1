//! The state behind a subscribable queue: the buffered events with their
//! listeners, and the channels through which subscribers are woken whenever
//! events arrive.

use vstd::prelude::*;
use std::borrow::Cow;
use crossbeam_channel::{Sender, TrySendError};
use crate::intern::Queue;
use crate::model::ListenerKey;
use crate::traits::EmitResult;
use crate::thirdparty::flagged;
use vstd::pervasive::cloned;

verus! {

/// Keeps, in their order, the items whose flag is set.
pub fn keep_flagged<S>(items: Vec<S>, flags: Vec<bool>) -> (kept: Vec<S>)
    requires
        flags@.len() == items@.len(),
    ensures
        kept@ == flagged(items@, flags@),
{
    let mut rest = items;
    let ghost all = rest@;
    let n = rest.len();
    let mut kept: Vec<S> = Vec::new();
    let mut k: usize = 0;
    while k < n
        invariant
            0 <= k <= n,
            n == all.len(),
            flags@.len() == n,
            rest@ == all.subrange(k as int, n as int),
            kept@ == flagged(all.take(k as int), flags@),
        decreases n - k,
    {
        let item = rest.remove(0);
        proof {
            assert(item == all[k as int]);
            assert(all.take(k + 1).drop_last() =~= all.take(k as int));
        }
        if flags[k] {
            kept.push(item);
        }
        k = k + 1;
        proof {
            assert(rest@ =~= all.subrange(k as int, n as int));
        }
    }
    assert(all.take(n as int) =~= all);
    kept
}

/// `crossbeam_channel::Sender::try_send` of a wake-up token: true unless the
/// channel is disconnected (a full channel already holds a token).  Whether
/// it is disconnected depends on the receiving halves, so nothing is claimed
/// of the answer.
#[verifier::external_body]
fn send_token(subscriber: &Sender<()>) -> bool {
    match subscriber.try_send(()) {
        Ok(()) => true,
        Err(TrySendError::Full(())) => true,
        Err(TrySendError::Disconnected(())) => false,
    }
}

/// Subscriber `i` of `subscribers` was handed a wake-up token through
/// `crossbeam_channel::Sender::try_send`, and `alive[i]` is what that call
/// answered (false: the channel is disconnected).  The body names the
/// crate's private wrapper of that call, so it stays closed.
pub closed spec fn woken(subscribers: Seq<Sender<()>>, alive: Seq<bool>) -> bool {
    &&& alive.len() == subscribers.len()
    &&& forall|i: int| 0 <= i < alive.len() ==> call_ensures(send_token, (&subscribers[i],), #[trigger] alive[i])
}

/// As many answers as subscribers.
pub proof fn lemma_woken_len(subscribers: Seq<Sender<()>>, alive: Seq<bool>)
    requires
        woken(subscribers, alive),
    ensures
        alive.len() == subscribers.len(),
{
}

/// The state of a subscribable queue.
pub struct Intern<T> {
    /// The buffered events and their listeners.
    pub ev: Queue<T>,
    /// The channels through which subscribers are woken.
    pub subscribers: Vec<Sender<()>>,
}

impl<T> Intern<T> {
    /// No event, no listener, no subscriber.
    pub fn new() -> (i: Self)
        ensures
            i.ev@.positions == Map::<ListenerKey, usize>::empty(),
            i.ev@.events == Seq::<T>::empty(),
            i.subscribers@.len() == 0,
    {
        Intern { ev: Queue::new(), subscribers: Vec::new() }
    }

    /// Adds a subscriber, woken from now on.
    pub fn subscribe(&mut self, tx: Sender<()>)
        ensures
            final(self).subscribers@ == old(self).subscribers@.push(tx),
            final(self).ev == old(self).ev,
    {
        self.subscribers.push(tx);
    }

    /// Adds a subscriber and a listener that receives the events emitted
    /// from now on.
    pub fn listen_and_subscribe(&mut self, tx: Sender<()>) -> (key: ListenerKey)
        requires
            old(self).ev@.positions.dom().len() + 2 < u32::MAX,
        ensures
            final(self).subscribers@ == old(self).subscribers@.push(tx),
            !old(self).ev@.has_listener(key),
            final(self).ev@ == old(self).ev@.with_listener(key),
    {
        self.subscribers.push(tx);
        self.ev.create_listener()
    }

    /// Wakes every subscriber, in order; the channels found disconnected are
    /// dropped, the others kept in their order.  `alive[i]` is what waking
    /// subscriber `i` answered.
    pub fn notify(&mut self)
        ensures
            final(self).ev == old(self).ev,
            exists|alive: Seq<bool>|
                woken(old(self).subscribers@, alive) && final(self).subscribers@ == #[trigger] flagged(
                    old(self).subscribers@,
                    alive,
                ),
    {
        let mut subscribers: Vec<Sender<()>> = Vec::new();
        std::mem::swap(&mut subscribers, &mut self.subscribers);
        let mut alive: Vec<bool> = Vec::new();
        let mut k: usize = 0;
        while k < subscribers.len()
            invariant
                0 <= k <= subscribers@.len(),
                alive@.len() == k,
                forall|i: int| 0 <= i < k ==> call_ensures(send_token, (&subscribers@[i],), #[trigger] alive@[i]),
            decreases subscribers@.len() - k,
        {
            let answer = send_token(&subscribers[k]);
            alive.push(answer);
            k = k + 1;
        }
        proof {
            assert(woken(old(self).subscribers@, alive@));
        }
        self.subscribers = keep_flagged(subscribers, alive);
    }

    /// Buffers an event and wakes the subscribers, if some listener is
    /// live; otherwise does nothing.  Tells whether some listener is live.
    pub fn push(&mut self, event: T) -> (r: bool)
        ensures
            r == old(self).ev@.has_listeners(),
            final(self).ev@ == old(self).ev@.emitted(event),
            r ==> exists|alive: Seq<bool>|
                woken(old(self).subscribers@, alive) && final(self).subscribers@ == #[trigger] flagged(
                    old(self).subscribers@,
                    alive,
                ),
            !r ==> final(self).subscribers@ == old(self).subscribers@,
    {
        if !self.ev.has_listeners() {
            return false;
        }
        self.ev.push_event(event);
        self.notify();
        true
    }

    /// Buffers events and wakes the subscribers, if some listener is live;
    /// otherwise does nothing.  Tells whether some listener is live.
    pub fn extend(&mut self, events: Vec<T>) -> (r: bool)
        ensures
            r == old(self).ev@.has_listeners(),
            final(self).ev@ == old(self).ev@.extended(events@),
            r ==> exists|alive: Seq<bool>|
                woken(old(self).subscribers@, alive) && final(self).subscribers@ == #[trigger] flagged(
                    old(self).subscribers@,
                    alive,
                ),
            !r ==> final(self).subscribers@ == old(self).subscribers@,
    {
        if !self.ev.has_listeners() {
            return false;
        }
        self.ev.extend(events);
        self.notify();
        true
    }
}

impl<T: Clone> Intern<T> {
    /// Emits an event: buffered, with the subscribers woken, if some
    /// listener is live; otherwise handed back.
    pub fn emit<'a>(&mut self, event: Cow<'a, T>) -> (r: EmitResult<'a, T>)
        ensures
            old(self).ev@.has_listeners() <==> r is Delivered,
            r is Undelivered ==> r->Undelivered_0 == event && final(self).ev@ == old(self).ev@
                && final(self).subscribers@ == old(self).subscribers@,
            r is Delivered ==> final(self).ev@ == old(self).ev@.emitted(final(self).ev@.events.last())
                && exists|alive: Seq<bool>|
                woken(old(self).subscribers@, alive) && final(self).subscribers@ == #[trigger] flagged(
                    old(self).subscribers@,
                    alive,
                ),
            r is Delivered ==> match event {
                Cow::Owned(item) => final(self).ev@.events.last() == item,
                Cow::Borrowed(item) => cloned(*item, final(self).ev@.events.last()),
            },
    {
        if !self.ev.has_listeners() {
            return EmitResult::Undelivered(event);
        }
        let r = crate::traits::EmitterMut::emit(&mut self.ev, event);
        self.notify();
        r
    }
}

} // verus!
