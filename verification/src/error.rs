//! Errors of the display back-ends that carry plain data.

use vstd::prelude::*;

verus! {

/// An error within Skia and its interactions with OpenGL.
#[derive(Debug, Clone, PartialEq, Eq)]
pub enum SkiaError {
    /// The OpenGL target named here is invalid.
    InvalidTarget(String),
    /// Invalid OpenGL context.
    InvalidContext,
    /// Unknown skia error.
    UnknownError,
}

/// An error of a draw command that refers to a resource.
#[derive(Debug, Clone, Copy, PartialEq, Eq, Structural)]
pub enum ReferenceError {
    /// No resource is stored under this ID.
    InvalidResource(u64),
    /// The reference is of another kind than the command needs (its ID).
    MismatchedResource(u64),
}

} // verus!
