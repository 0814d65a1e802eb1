//! The queue interfaces on standard and outside types: black holes,
//! collections of queues (broadcasting), shared pointers and channels.

use vstd::prelude::*;
use std::borrow::Cow;
use std::marker::PhantomData;
use std::rc::Rc;
use std::sync::Arc;
use std::sync::mpsc;
use vstd::pervasive::cloned;
use crate::traits::{EmitResult, Emitter, EmitterMut, EmitterMutExt, QueueInterfaceCommon};

verus! {

impl<Q> EmitterMut for Q where Q: Emitter, Q::Item: Clone {
    /// Emits through the shared reference.
    fn emit<'a>(&mut self, event: Cow<'a, Self::Item>) -> (r: EmitResult<'a, Self::Item>)
        ensures
            call_ensures(<Q as Emitter>::emit, (&*old(self), event), r),
    {
        Emitter::emit(&*self, event)
    }
}

impl<T> QueueInterfaceCommon for PhantomData<T> {
    type Item = T;
}

impl<T: Clone> Emitter for PhantomData<T> {
    /// A black hole drops every event.
    fn emit<'a>(&self, event: Cow<'a, T>) -> (r: EmitResult<'a, T>)
        ensures
            r == EmitResult::Undelivered(event),
    {
        EmitResult::Undelivered(event)
    }
}

/// The item a `Cow` holds or points to.
pub open spec fn cow_item<'a, T: Clone>(event: Cow<'a, T>) -> T {
    match event {
        Cow::Owned(item) => item,
        Cow::Borrowed(item) => *item,
    }
}

/// The items of `s` whose flag is set, in their order.
pub open spec fn flagged<A>(s: Seq<A>, flags: Seq<bool>) -> Seq<A>
    decreases s.len(),
{
    if s.len() == 0 {
        Seq::empty()
    } else {
        let rest = flagged(s.drop_last(), flags);
        if flags[s.len() - 1] {
            rest.push(s.last())
        } else {
            rest
        }
    }
}

/// Offers a borrowed event to one queue; tells whether it was delivered.
fn deliver<'a, Q: EmitterMut>(queue: &mut Q, event: &'a Q::Item) -> (b: bool) where Q::Item: Clone
    ensures
        exists|arg: &mut Q, r: EmitResult<'a, Q::Item>|
            *arg == *old(queue) && *final(arg) == *final(queue) && #[trigger] call_ensures(
                <Q as EmitterMut>::emit,
                (arg, Cow::Borrowed(event)),
                r,
            ) && (b <==> r is Delivered),
{
    queue.emit_borrowed(event).was_delivered()
}

impl<Q: QueueInterfaceCommon> QueueInterfaceCommon for [Q] {
    type Item = Q::Item;

    /// Whether no queue of the slice buffers an event: true when every
    /// queue answers true, false as soon as one answers false.
    fn buffer_is_empty(&self) -> (b: bool)
        ensures
            b ==> forall|i: int| 0 <= i < self@.len() ==> #[trigger] call_ensures(Q::buffer_is_empty, (&self@[i],), true),
            !b ==> exists|i: int| 0 <= i < self@.len() && #[trigger] call_ensures(Q::buffer_is_empty, (&self@[i],), false),
    {
        let mut i: usize = 0;
        while i < self.len()
            invariant
                0 <= i <= self@.len(),
                forall|j: int| 0 <= j < i ==> #[trigger] call_ensures(Q::buffer_is_empty, (&self@[j],), true),
            decreases self@.len() - i,
        {
            if !self[i].buffer_is_empty() {
                return false;
            }
            i = i + 1;
        }
        true
    }
}

/// Offers a borrowed event to every queue, one after the other; tells
/// whether at least one took it.  In the contract, `args[i]` is the borrow
/// of queue `i` that its `emit` got and `results[i]` what it returned.
fn offer_to_all<'a, Q: EmitterMut>(queues: &mut [Q], event: &'a Q::Item) -> (taken: bool)
    where
        Q::Item: Clone,
    ensures
        final(queues)@.len() == old(queues)@.len(),
        exists|args: Seq<&mut Q>, results: Seq<EmitResult<'a, Q::Item>>|
            #![trigger args.len(), results.len()]
            args.len() == old(queues)@.len() && results.len() == args.len()
                && (taken <==> exists|i: int| 0 <= i < results.len() && #[trigger] results[i] is Delivered)
                && forall|i: int|
                0 <= i < args.len() ==> *(#[trigger] args[i]) == old(queues)@[i] && *final(args[i]) == final(queues)@[i]
                    && call_ensures(<Q as EmitterMut>::emit, (args[i], Cow::Borrowed(event)), results[i]),
    decreases old(queues)@.len(),
{
    if queues.len() == 0 {
        proof {
            let args = Seq::<&mut Q>::empty();
            let results = Seq::<EmitResult<'a, Q::Item>>::empty();
            assert(args.len() == 0 && results.len() == 0);
        }
        return false;
    }
    let ghost before = queues@;
    let (head, tail) = queues.split_at_mut(1);
    let ghost tail_before = tail@;
    let first = head.first_mut().unwrap();
    let ghost first_before = *first;
    let first_taken = deliver(first, event);
    let ghost first_after = *first;
    let ghost (arg0, e0) = choose|arg: &mut Q, e: EmitResult<'a, Q::Item>|
        *arg == first_before && *final(arg) == first_after && #[trigger] call_ensures(
            <Q as EmitterMut>::emit,
            (arg, Cow::Borrowed(event)),
            e,
        ) && (first_taken <==> e is Delivered);
    let rest_taken = offer_to_all(tail, event);
    proof {
        assert(final(queues)@[0] == first_after);
        assert(forall|i: int| 1 <= i < before.len() ==> final(queues)@[i] == tail@[i - 1]);
        let (rargs, rresults) = choose|args: Seq<&mut Q>, results: Seq<EmitResult<'a, Q::Item>>|
            #![trigger args.len(), results.len()]
            args.len() == tail_before.len() && results.len() == args.len()
                && (rest_taken <==> exists|i: int| 0 <= i < results.len() && #[trigger] results[i] is Delivered)
                && forall|i: int|
                0 <= i < args.len() ==> *(#[trigger] args[i]) == tail_before[i] && *final(args[i]) == tail@[i]
                    && call_ensures(<Q as EmitterMut>::emit, (args[i], Cow::Borrowed(event)), results[i]);
        let args = seq![arg0] + rargs;
        let results = seq![e0] + rresults;
        assert(args.len() == rargs.len() + 1 && results.len() == rresults.len() + 1);
        assert forall|i: int| 0 <= i < args.len() implies *(#[trigger] args[i]) == before[i] && *final(args[i]) == final(queues)@[i]
            && call_ensures(<Q as EmitterMut>::emit, (args[i], Cow::Borrowed(event)), results[i]) by {
            if i > 0 {
                assert(args[i] == rargs[i - 1]);
                assert(results[i] == rresults[i - 1]);
                assert(*rargs[i - 1] == tail_before[i - 1]);
            }
        }
        assert((first_taken || rest_taken) <==> exists|i: int| 0 <= i < results.len() && #[trigger] results[i] is Delivered) by {
            if first_taken {
                assert(results[0] is Delivered);
            }
            if rest_taken {
                let j = choose|j: int| 0 <= j < rresults.len() && #[trigger] rresults[j] is Delivered;
                assert(results[j + 1] == rresults[j]);
            }
            if exists|i: int| 0 <= i < results.len() && #[trigger] results[i] is Delivered {
                let i = choose|i: int| 0 <= i < results.len() && #[trigger] results[i] is Delivered;
                if i > 0 {
                    assert(results[i] == rresults[i - 1]);
                }
            }
        }
    }
    first_taken || rest_taken
}

/// The item behind a `Cow`.
fn cow_ref<'b, 'a, T: Clone>(event: &'b Cow<'a, T>) -> (r: &'b T)
    ensures
        *r == cow_item(*event),
{
    match event {
        Cow::Owned(item) => item,
        Cow::Borrowed(item) => *item,
    }
}

impl<Q> EmitterMut for [Q] where Q: EmitterMut, Q::Item: Clone {
    /// A single queue gets the event itself.  Otherwise the event is
    /// broadcast: every queue, in order, is offered it borrowed, and it
    /// counts as delivered when at least one took it.  In the contract,
    /// `args[i]` is the borrow of queue `i` that its `emit` got and
    /// `results[i]` what it returned.
    fn emit<'a>(&mut self, event: Cow<'a, Self::Item>) -> (r: EmitResult<'a, Self::Item>)
        ensures
            final(self)@.len() == old(self)@.len(),
            old(self)@.len() == 1 ==> exists|arg: &mut Q|
                *arg == old(self)@[0] && *final(arg) == final(self)@[0] && #[trigger] call_ensures(
                    <Q as EmitterMut>::emit,
                    (arg, event),
                    r,
                ),
            old(self)@.len() != 1 ==> exists|args: Seq<&mut Q>, results: Seq<EmitResult<'_, Q::Item>>|
                #![trigger args.len(), results.len()]
                args.len() == old(self)@.len() && results.len() == args.len()
                    && (r is Delivered <==> exists|i: int| 0 <= i < results.len() && #[trigger] results[i] is Delivered)
                    && forall|i: int|
                    0 <= i < args.len() ==> *(#[trigger] args[i]) == old(self)@[i] && *final(args[i]) == final(self)@[i]
                        && call_ensures(
                        <Q as EmitterMut>::emit,
                        (args[i], Cow::Borrowed(&cow_item(event))),
                        results[i],
                    ),
            old(self)@.len() != 1 && r is Undelivered ==> r == EmitResult::Undelivered(event),
    {
        if self.len() == 1 {
            let first = self.first_mut().unwrap();
            first.emit(event)
        } else {
            let item = cow_ref(&event);
            if offer_to_all(self, item) {
                EmitResult::Delivered
            } else {
                EmitResult::Undelivered(event)
            }
        }
    }
}

impl<Q: QueueInterfaceCommon> QueueInterfaceCommon for Vec<Q> {
    type Item = Q::Item;

    /// Whether no queue of the list buffers an event: true when every
    /// queue answers true, false as soon as one answers false.
    fn buffer_is_empty(&self) -> (b: bool)
        ensures
            b ==> forall|i: int| 0 <= i < self@.len() ==> #[trigger] call_ensures(Q::buffer_is_empty, (&self@[i],), true),
            !b ==> exists|i: int| 0 <= i < self@.len() && #[trigger] call_ensures(Q::buffer_is_empty, (&self@[i],), false),
    {
        let mut i: usize = 0;
        while i < self.len()
            invariant
                0 <= i <= self@.len(),
                forall|j: int| 0 <= j < i ==> #[trigger] call_ensures(Q::buffer_is_empty, (&self@[j],), true),
            decreases self@.len() - i,
        {
            if !self[i].buffer_is_empty() {
                return false;
            }
            i = i + 1;
        }
        true
    }
}

/// `RetainMut::retain_mut` of the `retain_mut` crate, with [`deliver`] as
/// the predicate: it visits each queue exactly once, in the list's order,
/// passing it mutably to the predicate, and keeps, in order, the queues for
/// which the predicate returned true.  The predicate's outcome on each queue
/// is what `deliver` is proved to return, for the item behind `event`: in
/// the contract, `args[i]` is the borrow of queue `i` that `emit` got,
/// `results[i]` what it returned, and `after[i]` the queue afterwards.
#[verifier::external_body]
fn retain_delivering<'a, Q: EmitterMut>(queues: &mut Vec<Q>, event: &Cow<'a, Q::Item>)
    where
        Q::Item: Clone,
    ensures
        exists|args: Seq<&mut Q>, results: Seq<EmitResult<'_, Q::Item>>, after: Seq<Q>, delivered: Seq<bool>|
            #![trigger flagged(after, delivered), args.len(), results.len()]
            args.len() == old(queues)@.len() && results.len() == args.len() && after.len() == args.len()
                && delivered.len() == args.len() && final(queues)@ == flagged(after, delivered)
                && forall|i: int|
                0 <= i < args.len() ==> *(#[trigger] args[i]) == old(queues)@[i] && *final(args[i]) == after[i]
                    && call_ensures(
                    <Q as EmitterMut>::emit,
                    (args[i], Cow::Borrowed(&cow_item(*event))),
                    results[i],
                ) && (delivered[i] <==> results[i] is Delivered),
{
    let item: &Q::Item = event;
    #[allow(deprecated)]
    retain_mut::RetainMut::retain_mut(queues, |queue| deliver(queue, item))
}

impl<Q> EmitterMut for Vec<Q> where Q: EmitterMut, Q::Item: Clone {
    /// Broadcasts the event to every queue of the list, in order, each
    /// getting it borrowed; the queues that do not take it are dropped from
    /// the list.  The event counts as delivered while some queue remains.
    /// In the contract, `args[i]` is the borrow of queue `i` that its `emit`
    /// got, `results[i]` what it returned, and `after[i]` the queue
    /// afterwards; `delivered` flags the queues that are kept.
    fn emit<'a>(&mut self, event: Cow<'a, Self::Item>) -> (r: EmitResult<'a, Self::Item>)
        ensures
            exists|args: Seq<&mut Q>, results: Seq<EmitResult<'_, Q::Item>>, after: Seq<Q>, delivered: Seq<bool>|
                #![trigger flagged(after, delivered), args.len(), results.len()]
                args.len() == old(self)@.len() && results.len() == args.len() && after.len() == args.len()
                    && delivered.len() == args.len() && final(self)@ == flagged(after, delivered)
                    && forall|i: int|
                    0 <= i < args.len() ==> *(#[trigger] args[i]) == old(self)@[i] && *final(args[i]) == after[i]
                        && call_ensures(
                        <Q as EmitterMut>::emit,
                        (args[i], Cow::Borrowed(&cow_item(event))),
                        results[i],
                    ) && (delivered[i] <==> results[i] is Delivered),
            (r is Delivered) <==> final(self)@.len() > 0,
            r is Undelivered ==> r == EmitResult::Undelivered(event),
    {
        retain_delivering(self, &event);
        if self.len() == 0 {
            EmitResult::Undelivered(event)
        } else {
            EmitResult::Delivered
        }
    }
}

impl<Q: QueueInterfaceCommon> QueueInterfaceCommon for Rc<Q> {
    type Item = Q::Item;

    /// What the shared queue answers.
    fn buffer_is_empty(&self) -> (b: bool)
        ensures
            call_ensures(Q::buffer_is_empty, (&**self,), b),
    {
        (**self).buffer_is_empty()
    }
}

impl<Q> Emitter for Rc<Q> where Q: Emitter, Q::Item: Clone {
    /// Emits through the shared queue.
    fn emit<'a>(&self, event: Cow<'a, Self::Item>) -> (r: EmitResult<'a, Self::Item>)
        ensures
            call_ensures(<Q as Emitter>::emit, (&**self, event), r),
    {
        (**self).emit(event)
    }
}

impl<Q: QueueInterfaceCommon> QueueInterfaceCommon for Arc<Q> {
    type Item = Q::Item;

    /// What the shared queue answers.
    fn buffer_is_empty(&self) -> (b: bool)
        ensures
            call_ensures(Q::buffer_is_empty, (&**self,), b),
    {
        (**self).buffer_is_empty()
    }
}

impl<Q> Emitter for Arc<Q> where Q: Emitter, Q::Item: Clone {
    /// Emits through the shared queue.
    fn emit<'a>(&self, event: Cow<'a, Self::Item>) -> (r: EmitResult<'a, Self::Item>)
        ensures
            call_ensures(<Q as Emitter>::emit, (&**self, event), r),
    {
        (**self).emit(event)
    }
}

/// `std::sync::mpsc::Sender`, the sending half of a channel.
#[verifier::external_type_specification]
#[verifier::external_body]
#[verifier::reject_recursive_types(T)]
pub struct ExMpscSender<T>(mpsc::Sender<T>);

/// `std::sync::mpsc::SyncSender`, the sending half of a bounded channel.
#[verifier::external_type_specification]
#[verifier::external_body]
#[verifier::reject_recursive_types(T)]
pub struct ExMpscSyncSender<T>(mpsc::SyncSender<T>);

/// `crossbeam_channel::Sender`, the sending half of a channel.
#[verifier::external_type_specification]
#[verifier::external_body]
#[verifier::reject_recursive_types(T)]
pub struct ExChannelSender<T>(crossbeam_channel::Sender<T>);

/// `mpsc::Sender::send`: whether the value is accepted depends on the
/// receiving half still being alive; when it is refused, the very value is
/// handed back (`SendError` holds it).
#[verifier::external_body]
pub(crate) fn mpsc_send<T>(sender: &mpsc::Sender<T>, value: T) -> (r: Result<(), T>)
    ensures
        r matches Err(back) ==> back == value,
{
    sender.send(value).map_err(|err| err.0)
}

/// `mpsc::SyncSender::send`: blocks while the channel is full; whether the
/// value is accepted depends on the receiving half still being alive; when it
/// is refused, the very value is handed back.
#[verifier::external_body]
fn mpsc_sync_send<T>(sender: &mpsc::SyncSender<T>, value: T) -> (r: Result<(), T>)
    ensures
        r matches Err(back) ==> back == value,
{
    sender.send(value).map_err(|err| err.0)
}

/// `crossbeam_channel::Sender::send`: blocks while a bounded channel is full;
/// whether the value is accepted depends on the receiving halves still being
/// alive; when it is refused, the very value is handed back.
#[verifier::external_body]
fn channel_send<T>(sender: &crossbeam_channel::Sender<T>, value: T) -> (r: Result<(), T>)
    ensures
        r matches Err(back) ==> back == value,
{
    sender.send(value).map_err(|err| err.0)
}

/// `crossbeam_channel::Sender::is_empty`: whether the channel holds no
/// message at this moment; other threads may change that at any time, so
/// nothing is claimed of the answer.
#[verifier::external_body]
fn channel_is_empty<T>(sender: &crossbeam_channel::Sender<T>) -> bool {
    sender.is_empty()
}

/// `value` was handed to `sender` through `mpsc::Sender::send`, which
/// answered `res`.  The body names the crate's private wrapper of that call,
/// so it stays closed.
pub closed spec fn mpsc_handed<T>(sender: mpsc::Sender<T>, value: T, res: Result<(), T>) -> bool {
    call_ensures(mpsc_send::<T>, (&sender, value), res)
}

/// `value` was handed to `sender` through `mpsc::SyncSender::send`, which
/// answered `res`.  (Closed, as `mpsc_handed`.)
pub closed spec fn mpsc_sync_handed<T>(sender: mpsc::SyncSender<T>, value: T, res: Result<(), T>) -> bool {
    call_ensures(mpsc_sync_send::<T>, (&sender, value), res)
}

/// `value` was handed to `sender` through `crossbeam_channel::Sender::send`,
/// which answered `res`.  (Closed, as `mpsc_handed`.)
pub closed spec fn channel_handed<T>(sender: crossbeam_channel::Sender<T>, value: T, res: Result<(), T>) -> bool {
    call_ensures(channel_send::<T>, (&sender, value), res)
}

/// `crossbeam_channel::Sender::is_empty` was asked about `sender` and
/// answered `b`.  (Closed, as `mpsc_handed`.)
pub closed spec fn channel_emptiness<T>(sender: crossbeam_channel::Sender<T>, b: bool) -> bool {
    call_ensures(channel_is_empty::<T>, (&sender,), b)
}

/// What a send makes of an emission: delivered when the value was accepted,
/// otherwise undelivered with the refused value handed back.
pub open spec fn send_outcome<'a, T: Clone>(res: Result<(), T>) -> EmitResult<'a, T> {
    match res {
        Ok(_) => EmitResult::Delivered,
        Err(back) => EmitResult::Undelivered(Cow::Owned(back)),
    }
}

/// The value inside a `Cow`, owned.
fn cow_into_owned<'a, T: Clone>(event: Cow<'a, T>) -> (r: T)
    ensures
        match event {
            Cow::Owned(item) => r == item,
            Cow::Borrowed(item) => cloned(*item, r),
        },
{
    match event {
        Cow::Owned(item) => item,
        Cow::Borrowed(item) => item.clone(),
    }
}

/// The result of a send: delivered, or refused with the value handed back.
fn sent<'a, T: Clone>(r: Result<(), T>) -> (e: EmitResult<'a, T>)
    ensures
        e == send_outcome::<'a, T>(r),
{
    match r {
        Ok(()) => EmitResult::Delivered,
        Err(back) => EmitResult::Undelivered(Cow::Owned(back)),
    }
}

impl<T> QueueInterfaceCommon for mpsc::Sender<T> {
    type Item = T;
}

impl<T: Clone> Emitter for mpsc::Sender<T> {
    /// Sends the event through the channel.
    fn emit<'a>(&self, event: Cow<'a, T>) -> (r: EmitResult<'a, T>)
        ensures
            exists|value: T, res: Result<(), T>|
                #[trigger] mpsc_handed(*self, value, res) && r == send_outcome::<'a, T>(res) && match event {
                    Cow::Owned(item) => value == item,
                    Cow::Borrowed(item) => cloned(*item, value),
                },
    {
        let value = cow_into_owned(event);
        let res = mpsc_send(self, value);
        proof {
            assert(mpsc_handed(*self, value, res));
        }
        sent(res)
    }
}

impl<T> QueueInterfaceCommon for mpsc::SyncSender<T> {
    type Item = T;
}

impl<T: Clone> Emitter for mpsc::SyncSender<T> {
    /// Sends the event through the channel.
    fn emit<'a>(&self, event: Cow<'a, T>) -> (r: EmitResult<'a, T>)
        ensures
            exists|value: T, res: Result<(), T>|
                #[trigger] mpsc_sync_handed(*self, value, res) && r == send_outcome::<'a, T>(res) && match event {
                    Cow::Owned(item) => value == item,
                    Cow::Borrowed(item) => cloned(*item, value),
                },
    {
        let value = cow_into_owned(event);
        let res = mpsc_sync_send(self, value);
        proof {
            assert(mpsc_sync_handed(*self, value, res));
        }
        sent(res)
    }
}

impl<T> QueueInterfaceCommon for crossbeam_channel::Sender<T> {
    type Item = T;

    /// What the channel answers at this moment.
    fn buffer_is_empty(&self) -> (b: bool)
        ensures
            channel_emptiness(*self, b),
    {
        let b = channel_is_empty(self);
        proof {
            assert(channel_emptiness(*self, b));
        }
        b
    }
}

impl<T: Clone> Emitter for crossbeam_channel::Sender<T> {
    /// Sends the event through the channel.
    fn emit<'a>(&self, event: Cow<'a, T>) -> (r: EmitResult<'a, T>)
        ensures
            exists|value: T, res: Result<(), T>|
                #[trigger] channel_handed(*self, value, res) && r == send_outcome::<'a, T>(res) && match event {
                    Cow::Owned(item) => value == item,
                    Cow::Borrowed(item) => cloned(*item, value),
                },
    {
        let value = cow_into_owned(event);
        let res = channel_send(self, value);
        proof {
            assert(channel_handed(*self, value, res));
        }
        sent(res)
    }
}


} // verus!
