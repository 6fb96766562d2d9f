//! The failure value carried out of document loading.

use vstd::prelude::*;

verus! {

/// An error: an opaque value carrying a human-readable message.
#[derive(Debug)]
pub struct Error(pub String);

impl Error {
    /// The human-readable message.
    pub fn description(&self) -> (r: &str)
        ensures
            r@ == self.0@,
    {
        self.0.as_str()
    }
}

} // verus!
