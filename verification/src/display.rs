//! The parts of the display interface that carry no geometry: resources,
//! command-group handles, and the repaint bookkeeping of a command group.

use vstd::prelude::*;
use std::path::PathBuf;
use std::sync::Arc;
use crate::error::ReferenceError;

verus! {

/// `std::path::PathBuf`, carried through as an opaque value.
#[verifier::external_type_specification]
#[verifier::external_body]
pub struct ExPathBuf(PathBuf);

/// `PathBuf::clone`, called by the derived `Clone` of [`ResourceData`];
/// nothing is claimed of the copy.
pub assume_specification[ <PathBuf as Clone>::clone ](path: &PathBuf) -> PathBuf;

/// Resource data, either as a file or an in-memory buffer.
#[derive(Debug, Clone)]
pub enum ResourceData {
    File(PathBuf),
    Data(SharedData),
}

/// Whether the given image data is encoded.
/// Formats like PNG and JPEG are encoded, however formats like RAW and a simple array of pixels aren't.
#[derive(Debug, Clone)]
pub enum ImageData {
    Encoded(ResourceData),
    Raw(ResourceData, RasterImageInfo),
}

/// How pixels are stored in memory.
#[derive(Debug, Clone, Copy, PartialEq, Eq, Structural)]
pub enum RasterImageFormat {
    /// 4x8-bit components, in order of; red, green, blue and alpha.
    Rgba8,
    /// 4x8-bit components, in order of; blue, green, red and alpha.
    Bgra8,
}

/// Information about a raster image.
#[derive(Debug, Clone, Copy, PartialEq, Eq)]
pub struct RasterImageInfo {
    pub size: (u32, u32),
    pub format: RasterImageFormat,
}

/// Contains information required to load a resource.
#[derive(Debug, Clone)]
pub enum ResourceDescriptor {
    Image(ImageData),
    Font(ResourceData),
}

/// Contains a tagged ID to an existing resource.
///
/// This is used to reference resources in draw commands and to remove resources.
#[derive(Debug, Clone, Copy, PartialEq, Eq, Structural)]
pub enum ResourceReference {
    Image(u64),
    Font(u64),
}

impl ResourceReference {
    /// The inner ID, whatever the kind of resource.
    pub open spec fn spec_id(self) -> u64 {
        match self {
            ResourceReference::Image(id) => id,
            ResourceReference::Font(id) => id,
        }
    }

    /// Returns the inner ID of the resource reference.
    pub fn id(&self) -> (id: u64)
        ensures
            id == self.spec_id(),
    {
        match self {
            ResourceReference::Image(id) => *id,
            ResourceReference::Font(id) => *id,
        }
    }

    /// The kind of resource the reference is for.
    pub open spec fn spec_kind(self) -> ResourceKind {
        match self {
            ResourceReference::Image(_) => ResourceKind::Image,
            ResourceReference::Font(_) => ResourceKind::Font,
        }
    }
}

/// The kinds of resource a display stores.
#[derive(Debug, Clone, Copy, PartialEq, Eq, Structural)]
pub enum ResourceKind {
    Image,
    Font,
}

/// Checks the resource that a draw command refers to.  The command needs a
/// resource of kind `needed` and refers to it by `reference`; `stored` is
/// the kind of the resource the display holds under the reference's ID, if
/// it holds any.  A reference of another kind is `MismatchedResource`, an
/// ID under which nothing is stored is `InvalidResource`; otherwise the
/// command draws (`Ok(true)`) when the stored resource is of the needed
/// kind, and is skipped (`Ok(false)`) when it is not.
pub fn check_resource(
    needed: ResourceKind,
    reference: ResourceReference,
    stored: Option<ResourceKind>,
) -> (r: Result<bool, ReferenceError>)
    ensures
        reference.spec_kind() != needed ==> r == Err::<bool, ReferenceError>(
            ReferenceError::MismatchedResource(reference.spec_id()),
        ),
        reference.spec_kind() == needed && stored is None ==> r == Err::<bool, ReferenceError>(
            ReferenceError::InvalidResource(reference.spec_id()),
        ),
        reference.spec_kind() == needed && stored is Some ==> r == Ok::<bool, ReferenceError>(
            stored->0 == needed,
        ),
{
    let (kind, id) = match reference {
        ResourceReference::Image(id) => (ResourceKind::Image, id),
        ResourceReference::Font(id) => (ResourceKind::Font, id),
    };
    if kind != needed {
        return Err(ReferenceError::MismatchedResource(id));
    }
    match stored {
        None => Err(ReferenceError::InvalidResource(id)),
        Some(found) => Ok(found == needed),
    }
}

/// Data stored as bytes, either in an atomically reference counted `Vec` or a static reference.
#[derive(Debug, Clone)]
pub enum SharedData {
    RefCount(Arc<Vec<u8>>),
    Static(&'static [u8]),
}

/// Handle to a command group within a graphics display.
#[derive(Debug, Clone, Copy, PartialEq, Eq, Structural)]
pub struct CommandGroupHandle(u64);

impl CommandGroupHandle {
    /// The inner ID.
    pub closed spec fn spec_id(self) -> u64 {
        self.0
    }

    /// Creates a new `CommandGroupHandle`, with the inner ID set to `id`.
    pub fn new(id: u64) -> (h: Self)
        ensures
            h.spec_id() == id,
    {
        CommandGroupHandle(id)
    }

    /// Returns the inner ID.
    pub fn id(&self) -> (id: u64)
        ensures
            id == self.spec_id(),
    {
        self.0
    }
}

/// What a command group asks of the display when its commands are pushed.
#[derive(Debug, Clone, Copy, PartialEq, Eq, Structural)]
pub enum PushAction {
    /// The group has no command group yet: push the commands as a new one
    /// and hand the returned handle to [`CommandGroup::pushed`].
    Push,
    /// Overwrite the existing command group with the commands.
    Modify(CommandGroupHandle),
    /// Nothing to repaint: only refresh the existing command group.
    Maintain(CommandGroupHandle),
}

/// Helper wrapper around [`CommandGroupHandle`]: the handle, once the
/// commands were pushed, and a flag that asks for them to be pushed again.
#[derive(Clone, Copy)]
pub struct CommandGroup(Option<CommandGroupHandle>, bool);

impl CommandGroup {
    /// The handle of the pushed command group, if any.
    pub closed spec fn spec_handle(self) -> Option<CommandGroupHandle> {
        self.0
    }

    /// The repaint flag.
    pub closed spec fn spec_repaint(self) -> bool {
        self.1
    }

    /// A group that will not repaint has been pushed before.
    #[verifier::type_invariant]
    closed spec fn inv(self) -> bool {
        !self.1 ==> self.0 is Some
    }

    /// Creates a new, empty command group.
    pub fn new() -> (g: Self)
        ensures
            g.spec_handle() is None,
            g.spec_repaint(),
    {
        CommandGroup(None, true)
    }

    /// Decides what pushing a list of commands does to the display: if the
    /// repaint flag is set, the commands are pushed (or the existing group
    /// modified) and the flag is reset; otherwise the existing group is only
    /// maintained.
    pub fn push(&mut self) -> (action: PushAction)
        ensures
            old(self).spec_repaint() && old(self).spec_handle() is None ==> action == PushAction::Push
                && *final(self) == *old(self),
            old(self).spec_repaint() && old(self).spec_handle() is Some ==> action == PushAction::Modify(
                old(self).spec_handle()->Some_0,
            ) && final(self).spec_handle() == old(self).spec_handle() && !final(self).spec_repaint(),
            !old(self).spec_repaint() ==> action == PushAction::Maintain(old(self).spec_handle()->Some_0)
                && *final(self) == *old(self),
    {
        proof {
            use_type_invariant(&*self);
        }
        if self.1 {
            match self.0 {
                Some(handle) => {
                    self.1 = false;
                    PushAction::Modify(handle)
                },
                None => PushAction::Push,
            }
        } else {
            match self.0 {
                Some(handle) => PushAction::Maintain(handle),
                None => PushAction::Push,
            }
        }
    }

    /// Records the handle of the command group that was pushed after
    /// [`push`](CommandGroup::push) asked for it, and resets the repaint flag.
    pub fn pushed(&mut self, handle: CommandGroupHandle)
        ensures
            final(self).spec_handle() == Some(handle),
            !final(self).spec_repaint(),
    {
        *self = CommandGroup(Some(handle), false);
    }

    /// Sets the repaint flag so that next time [`push`](CommandGroup::push) is called the commands will be pushed.
    pub fn repaint(&mut self)
        ensures
            final(self).spec_repaint(),
            final(self).spec_handle() == old(self).spec_handle(),
    {
        let handle = self.0;
        *self = CommandGroup(handle, true);
    }

    /// Returns flag indicating whether next [`push`](CommandGroup::push) will skip or not.
    pub fn will_repaint(&self) -> (b: bool)
        ensures
            b == self.spec_repaint(),
    {
        self.1
    }
}

/// Stroke cap (stroke start/end) appearance.
#[derive(Debug, Clone, Copy, PartialEq, Eq, Structural)]
pub enum LineCap {
    /// The cap of the stroke will appear as expected.
    Flat,
    /// The cap of the stroke will extend tangentially with dimensions square to the stroke width.
    Square,
    /// The end of the stroke will extend tangentially, with a semi-circle.
    Round,
}

impl Default for LineCap {
    fn default() -> (cap: Self)
        ensures
            cap == LineCap::Flat,
    {
        LineCap::Flat
    }
}

/// Path corner appearance.
#[derive(Debug, Clone, Copy, PartialEq, Eq, Structural)]
pub enum LineJoin {
    /// The corner will appear as expected.
    Miter,
    /// The corner will be rounded off.
    Round,
    /// The corner will be cut off with a line normal to the mid-value of the tangents of the adjacent lines.
    Bevel,
}

impl Default for LineJoin {
    fn default() -> (join: Self)
        ensures
            join == LineJoin::Miter,
    {
        LineJoin::Miter
    }
}

/// Contains information about an existing OpenGL framebuffer.
#[derive(Debug, Clone, Copy)]
pub struct SkiaOpenGlFramebuffer {
    pub size: (i32, i32),
    pub framebuffer_id: u32,
}

/// Contains information about an existing OpenGL texture.
#[derive(Debug, Clone, Copy)]
pub struct SkiaOpenGlTexture {
    pub size: (i32, i32),
    pub mip_mapped: bool,
    pub texture_id: u32,
}

} // verus!
