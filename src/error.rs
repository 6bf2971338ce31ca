use vstd::prelude::*;

verus! {

/// The error kinds that memory, paging and spawn operations report.
#[derive(Debug, Clone, Copy, PartialEq, Eq, Structural)]
pub enum KError {
    /// The physical allocator, the table pool or the heap had nothing left.
    OutOfMemory,
    /// A mapping would cross an existing entry.
    InvalidMapping,
    /// A capability is absent, revoked, or of the wrong type.
    InvalidCapability,
    /// A size, an alignment, an address or a permission set is not acceptable.
    InvalidArgument,
    /// The receiving end of a channel is not ready.
    WouldBlock,
}

} // verus!
