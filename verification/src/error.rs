//! The error of a resolution that was given up.

use vstd::prelude::*;

verus! {

/// The resolution cannot go on.
#[derive(Debug, Clone, Copy, PartialEq, Eq, Structural)]
pub struct SomeError;

impl SomeError {
    /// How the error is shown.
    pub fn text(&self) -> (r: String)
        ensures
            r@ == "SomeError"@,
    {
        "SomeError".to_string()
    }
}

} // verus!
