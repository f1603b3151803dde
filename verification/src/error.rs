//! The error of the device logic.

use vstd::prelude::*;

verus! {

/// Why an operation of the device did not succeed.
#[derive(Clone, Copy, Debug, PartialEq, Eq, Structural)]
pub enum Error {
    /// An attribute file could not be read or written, or a stored value was
    /// not one that is ever stored.
    Failure,
}

}
