//! What a failure of the file task becomes.

use vstd::prelude::*;
use crate::error::{IoKind, PeachDbError};

verus! {

/// The error for a failed file operation: an I/O error of kind `Other` with the failure's text.
pub fn map_file_handler_error(message: String) -> (e: PeachDbError)
    ensures
        e matches PeachDbError::Io { kind, message: m } && kind == IoKind::Other && m@ == message@,
{
    PeachDbError::Io { kind: IoKind::Other, message }
}

} // verus!
