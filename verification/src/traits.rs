//! The interfaces shared by every event queue: emitting, listening, and the
//! result of an emission.

use vstd::prelude::*;
use std::borrow::Cow;
use vstd::pervasive::cloned;

verus! {

/// `EmitResult` indicates the success or failure of an event emission.
/// * `Delivered` means the event was emitted with possible listeners present.
/// * `Undelivered` means nobody could take the event; it hands back the
///   unconsumed argument.
#[derive(Debug)]
#[verifier::reject_recursive_types(T)]
pub enum EmitResult<'a, T: Clone> {
    Delivered,
    Undelivered(Cow<'a, T>),
}

impl<'a, T: Clone> EmitResult<'a, T> {
    /// The `Result` that corresponds to this emission result.
    pub open spec fn as_result(self) -> Result<(), Cow<'a, T>> {
        match self {
            EmitResult::Delivered => Ok(()),
            EmitResult::Undelivered(x) => Err(x),
        }
    }

    /// Returns true if the result is `Delivered`, otherwise false.
    pub fn was_delivered(&self) -> (b: bool)
        ensures
            b <==> self is Delivered,
    {
        match self {
            EmitResult::Delivered => true,
            EmitResult::Undelivered(_) => false,
        }
    }

    /// Returns true if the result is `Undelivered`, otherwise false.
    pub fn was_undelivered(&self) -> (b: bool)
        ensures
            b <==> self is Undelivered,
    {
        match self {
            EmitResult::Delivered => false,
            EmitResult::Undelivered(_) => true,
        }
    }

    /// Converts this `EmitResult` into `std::result::Result`.
    pub fn to_result(self) -> (r: Result<(), Cow<'a, T>>)
        ensures
            r == self.as_result(),
    {
        match self {
            EmitResult::Delivered => Ok(()),
            EmitResult::Undelivered(x) => Err(x),
        }
    }
}

impl<'a, T: Clone> Clone for EmitResult<'a, T> {
    /// Clones the result: a borrowed event stays the same borrow, an owned
    /// one is cloned.
    fn clone(&self) -> (r: Self)
        ensures
            match *self {
                EmitResult::Delivered => r is Delivered,
                EmitResult::Undelivered(Cow::Borrowed(event)) => r == EmitResult::Undelivered(
                    Cow::Borrowed(event),
                ),
                EmitResult::Undelivered(Cow::Owned(event)) => exists|copy: T|
                    r == EmitResult::<'a, T>::Undelivered(Cow::Owned(copy)) && #[trigger] cloned(
                        event,
                        copy,
                    ),
            },
    {
        match self {
            EmitResult::Delivered => EmitResult::Delivered,
            EmitResult::Undelivered(Cow::Borrowed(event)) => EmitResult::Undelivered(Cow::Borrowed(*event)),
            EmitResult::Undelivered(Cow::Owned(event)) => {
                let copy = event.clone();
                assert(cloned(*event, copy));
                EmitResult::Undelivered(Cow::Owned(copy))
            },
        }
    }
}

impl<'a, T: Clone> From<Result<(), Cow<'a, T>>> for EmitResult<'a, T> {
    fn from(result: Result<(), Cow<'a, T>>) -> (r: Self) {
        match result {
            Ok(_) => EmitResult::Delivered,
            Err(x) => EmitResult::Undelivered(x),
        }
    }
}

impl<'a, T: Clone> vstd::std_specs::convert::FromSpecImpl<Result<(), Cow<'a, T>>> for EmitResult<'a, T> {
    open spec fn obeys_from_spec() -> bool {
        true
    }

    open spec fn from_spec(result: Result<(), Cow<'a, T>>) -> Self {
        match result {
            Ok(_) => EmitResult::Delivered,
            Err(x) => EmitResult::Undelivered(x),
        }
    }
}

impl<'a, T: Clone> From<EmitResult<'a, T>> for Result<(), Cow<'a, T>> {
    fn from(result: EmitResult<'a, T>) -> (r: Self) {
        match result {
            EmitResult::Delivered => Ok(()),
            EmitResult::Undelivered(x) => Err(x),
        }
    }
}

impl<'a, T: Clone> vstd::std_specs::convert::FromSpecImpl<EmitResult<'a, T>> for Result<(), Cow<'a, T>> {
    open spec fn obeys_from_spec() -> bool {
        true
    }

    open spec fn from_spec(result: EmitResult<'a, T>) -> Self {
        result.as_result()
    }
}

/// The part common to every event queue.
pub trait QueueInterfaceCommon {
    type Item;

    /// Checks if any events are currently buffered
    ///
    /// # Return value
    /// * `false` if events are currently buffered
    /// * `true` if no events are currently buffered or the event queue doesn't
    ///   support querying this information
    fn buffer_is_empty(&self) -> (b: bool)
        default_ensures
            b,
    {
        true
    }
}

/// Every supported event queue implements this trait, mutable variant.
pub trait EmitterMut: QueueInterfaceCommon where Self::Item: Clone {
    /// Pushes/emits an event
    fn emit<'a>(&mut self, event: Cow<'a, Self::Item>) -> EmitResult<'a, Self::Item>;
}

/// Every supported indirect event queue implements this trait.
pub trait Emitter: QueueInterfaceCommon where Self::Item: Clone {
    /// Pushes/emits an event
    fn emit<'a>(&self, event: Cow<'a, Self::Item>) -> EmitResult<'a, Self::Item>;
}

/// Event queues with the ability to create new listeners implement this trait.
pub trait QueueInterfaceListable: QueueInterfaceCommon where Self::Item: Clone {
    type Listener: Listen<Item = Self::Item>;

    /// Creates a new event queue
    fn new() -> (q: Self) where Self: Default
        default_ensures
            call_ensures(Self::default, (), q),
    {
        Self::default()
    }

    /// Returns a handle to a new listener
    fn listen(&self) -> Self::Listener;
}

/// Conveniences on top of [`EmitterMut`].
pub trait EmitterMutExt: EmitterMut + Sized where Self::Item: Clone {
    /// Pushs/emits an event, performing conversion from owned
    fn emit_owned(&mut self, event: Self::Item) -> (r: EmitResult<'static, Self::Item>)
        ensures
            exists|arg: &mut Self| *arg == *old(self) && *final(arg) == *final(self) && #[trigger] call_ensures(Self::emit, (arg, Cow::Owned(event)), r),
    {
        self.emit(Cow::Owned(event))
    }

    /// Pushs/emits an event, performing conversion from borrowed
    fn emit_borrowed<'a>(&mut self, event: &'a Self::Item) -> (r: EmitResult<'a, Self::Item>)
        ensures
            exists|arg: &mut Self| *arg == *old(self) && *final(arg) == *final(self) && #[trigger] call_ensures(Self::emit, (arg, Cow::Borrowed(event)), r),
    {
        self.emit(Cow::Borrowed(event))
    }
}

impl<Q: EmitterMut> EmitterMutExt for Q where Q::Item: Clone {}

/// Conveniences on top of [`Emitter`].
pub trait EmitterExt: Emitter where Self::Item: Clone {
    /// Pushs/emits an event, performing conversion from owned
    fn emit_owned(&self, event: Self::Item) -> (r: EmitResult<'static, Self::Item>)
        ensures
            call_ensures(Self::emit, (self, Cow::Owned(event)), r),
    {
        self.emit(Cow::Owned(event))
    }

    /// Pushs/emits an event, performing conversion from borrowed
    fn emit_borrowed<'a>(&self, event: &'a Self::Item) -> (r: EmitResult<'a, Self::Item>)
        ensures
            call_ensures(Self::emit, (self, Cow::Borrowed(event)), r),
    {
        self.emit(Cow::Borrowed(event))
    }
}

impl<Q: Emitter> EmitterExt for Q where Q::Item: Clone {}

/// Clones every item of a slice into a new vector.
fn clone_all<T: Clone>(items: &[T]) -> (r: Vec<T>)
    ensures
        r@.len() == items@.len(),
        forall|i: int| 0 <= i < items@.len() ==> cloned(#[trigger] items@[i], r@[i]),
{
    let mut r: Vec<T> = Vec::new();
    let mut i: usize = 0;
    while i < items.len()
        invariant
            0 <= i <= items@.len(),
            r@.len() == i,
            forall|j: int| 0 <= j < i ==> cloned(#[trigger] items@[j], r@[j]),
        decreases items@.len() - i,
    {
        r.push(items[i].clone());
        i = i + 1;
    }
    r
}

/// The receiving end of an event queue.
pub trait Listen {
    type Item;

    /// Applies a function to the list of new events since last `with` or
    /// `peek`: `f` is called once, on that list, and its result returned.
    fn with<F, R>(&self, f: F) -> (r: R) where F: FnOnce(&[Self::Item]) -> R
        requires
            forall|events: &[Self::Item]| #[trigger] f.requires((events,)),
        ensures
            exists|events: &[Self::Item]| #[trigger] f.ensures((events,), r),
    ;

    /// Returns a list of new events since last `peek`: by default, clones
    /// of the list that [`with`](Listen::with) hands over.
    fn peek(&self) -> (r: Vec<Self::Item>) where Self::Item: Clone
        default_ensures
            exists|events: &[Self::Item]| #![trigger events@] events@.len() == r@.len() && forall|i: int|
                0 <= i < r@.len() ==> cloned(#[trigger] events@[i], r@[i]),
    {
        self.with(clone_all::<Self::Item>)
    }
}

} // verus!
