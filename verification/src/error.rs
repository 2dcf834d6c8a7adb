use vstd::prelude::*;

verus! {

/// The failure taxonomy shared by the ordered index and the graph engine.
///
/// Every operation reports failures by value through this enum; the verified
/// functions of this crate never panic.
#[derive(Debug, Clone, Copy, PartialEq, Eq)]
pub enum Error {
    KeyAlreadyExists,
    KeyWasNotFound,
    UnexpectedError,
    FileAlreadyExists,
    FileAlreadyOpened,
    IoError,
    FileDoesntExist,
    DirAlreadyExists,
    DirDoesntExist,
    PathDoesntExist,
    ErrorDeserializing,
    ErrorSerializing,
    OutOfBounds,
    VertexAlreadyExists,
    EdgeAlreadyExists,
    NullPointer,
    MismatchedVicinity,
    WithMessage(&'static str),
}

impl Error {
    /// Whether this error is the cycle report of the topological sort,
    /// carrying its distinct message.
    pub open spec fn is_cycle_error(self) -> bool {
        &&& self is WithMessage
        &&& self->WithMessage_0@ == "Graph contains cycle"@
    }
}

} // verus!
