//! Event queues with listener cursors, and the parts of the display layer
//! that carry no geometry.
//!
//! An event queue buffers events and keeps, for each listener, the position
//! of the first event that the listener has not received yet.  Events that
//! every listener has received are dropped.  `model` states what every
//! operation does to a queue, and the laws that follow; `intern`, `widget`
//! and `event_intern` are the queues, proved to follow the model, and
//! `chans` and `schans` add subscribers reached through channels.
//!
//! On the display side, `command_list` keeps command groups by depth and
//! decides what a presentation draws and drops, `display` holds resources,
//! handles and the repaint bookkeeping of a command group, and `save_stack`
//! the save/restore stack of a renderer.

pub mod model;
mod slots;
pub mod linked;
pub mod traits;
pub mod prelude;
pub mod intern;
pub mod event_intern;
pub mod widget;
pub mod thirdparty;
pub mod cascade;
pub mod display;
pub mod save_stack;
pub mod command_list;
pub mod chans;
pub mod schans;
pub mod gpu;
pub mod error;

pub use intern::Queue as RawEventQueue;
pub use model::ListenerKey;
pub use traits::{
    EmitResult, Emitter, EmitterExt, EmitterMut, EmitterMutExt, Listen, QueueInterfaceCommon,
    QueueInterfaceListable,
};

use vstd::prelude::*;

verus! {

/// An event queue which drops any incoming item.
pub type BlackHole<T> = std::marker::PhantomData<T>;

} // verus!
