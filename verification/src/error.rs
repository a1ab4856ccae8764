//! What can go wrong.
use crate::platform::{Architecture, Platform};
use vstd::prelude::*;

verus! {

/// An error of the library.
#[derive(Debug, Clone, PartialEq, Eq)]
pub enum Error {
    /// There is no binary for this platform and architecture.
    Binary(Platform, Architecture),
    /// Anything else, in words.
    Unknown(String),
}

} // verus!
