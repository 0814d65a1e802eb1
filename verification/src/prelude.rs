//! Exports the most important traits.

pub use crate::traits::{
    Emitter as EventEmitter, EmitterExt as EventEmitterExt, EmitterMut as EventEmitterMut,
    EmitterMutExt as EventEmitterMutExt, Listen as EventListen, QueueInterfaceCommon,
    QueueInterfaceListable,
};
