use vstd::prelude::*;

verus! {

/// What went wrong in an operation of the store.
#[derive(Debug, Clone, Copy, PartialEq, Eq, Structural)]
pub enum LigatureSledError {
    /// An entity id greater than the dataset's entity counter was used.
    InvalidEntity,
    /// An attribute name does not have the required shape.
    InvalidAttribute,
    /// A key or a stored value is truncated or malformed.
    DecodingError,
    /// An interning entry that must exist is missing.
    CorruptedInterning,
    /// More than one stored statement carries the same context.
    DuplicateContext,
    /// A counter has reached its largest value.
    CounterOverflow,
    /// The underlying tree reported a failure, or was changed concurrently.
    StoreError,
}

} // verus!
