use vstd::prelude::*;

verus! {

/// The error kinds surfaced by the library.
///
/// Row-level failures travel through `Result` values; invariant violations
/// (an unknown page in `unpin_page`, a pin-count underflow) are excluded by
/// the callers' preconditions instead of aborting the process.
#[derive(Clone, Copy, Debug, PartialEq, Eq, Structural)]
pub enum Error {
    /// A malformed argument: a bad record id, a bad slot, a wrong page id,
    /// an unknown table or column.
    InvalidInput,
    /// A tuple does not fit in the free space of a page.
    OutOfSpace,
    /// Arithmetic or comparison on incompatible fields, an overflow, or a
    /// division by zero.
    TypeMismatch,
    /// A table or page that does not exist.
    NotFound,
    /// A failure of the underlying page store.
    Io,
    /// An internal invariant violation, or an operation that is not
    /// implemented.
    Internal,
}

} // verus!
