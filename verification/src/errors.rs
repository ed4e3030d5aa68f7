//! The error taxonomy of the engine.
//!
//! A missing key on `get` or `remove` is reported through the result value,
//! not through an error: only genuine failures carry an `ErrorCode`.

use vstd::prelude::*;

verus! {

/// Why an operation failed.
///
/// `InvalidState` covers calls that the handle's lifecycle phase forbids,
/// such as tuning after the first open or writing to a closed handle.
/// `PermissionDenied`, `NotFound`, `CorruptFile` and `IoError` arise from the
/// file that `open` is given; `ReadOnly` from a mutation on a reader-mode
/// handle; `WouldBlock` from a contended non-blocking lock; `OutOfSpace` when
/// the storage file cannot grow any further.
#[derive(Clone, Copy, Debug, PartialEq, Eq, Structural)]
pub enum ErrorCode {
    InvalidState,
    PermissionDenied,
    NotFound,
    CorruptFile,
    IoError,
    ReadOnly,
    WouldBlock,
    OutOfSpace,
}

} // verus!
