//! The library's error type.

use vstd::prelude::*;

verus! {

/// Errors raised by the library's own checks.
#[derive(Debug)]
pub enum Error {
    /// A failure described by a message.
    Msg(String),
}

} // verus!
