use vstd::prelude::*;

verus! {

/// Everything that can go wrong in the page store.
#[derive(Debug, Clone, Copy, PartialEq, Eq, Structural)]
pub enum WcError {
    /// The file is absent from storage.
    NotFound,
    /// Bytes are present but do not hold a well-formed page document.
    Corrupt,
    /// The optimistic-concurrency revision check failed.
    RevisionConflict,
    /// The page was already relocated; its `moved_to` mark is set.
    AlreadyMoved,
    /// The destination page already has real content.
    DestinationOccupied,
    /// Relocating the subtree ran into a page staged earlier.
    CycleDetected,
    /// The file a new page would occupy already exists.
    AlreadyExists,
    /// A degenerate title or href was handed in.
    InvalidInput,
    /// A storage write failed.  Never produced by the in-memory store;
    /// callers that persist to real storage report it through this variant.
    WriteFailure,
}

} // verus!
