use vstd::prelude::*;

verus! {

/// The ways in which an operation of the store can fail.
#[derive(Debug, Clone, Copy, PartialEq, Eq, Structural)]
pub enum StoreError {
    /// The file system refused an open, append, read, flush or delete.
    IOFailure,
    /// An append wrote fewer bytes than it was handed.
    ShortWrite,
    /// A buffer does not hold a well-formed entry where one was expected.
    CorruptFrame,
    /// A location names a segment that the store never created.
    UnknownSegment,
    /// The key could not be turned into bytes, or bytes back into a key.
    KeySerializationFailure,
    /// An entry is too long for the 32-bit length fields of its frame.
    EntryTooLarge,
    /// The segment id generator has no larger id left to hand out.
    IdsExhausted,
}

} // verus!
