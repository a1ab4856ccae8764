//! Programs that are fetched as binaries.
use vstd::prelude::*;

pub mod ffmpeg;

verus! {

/// A file that a release offers.
#[derive(Debug, PartialEq, Eq)]
pub struct Asset {
    /// The name of the file.
    pub name: String,
    /// Where it is.
    pub download_url: String,
}

/// The release that was asked for.
#[derive(Debug, PartialEq, Eq)]
pub struct WantedRelease {
    /// Where it is.
    pub url: String,
    /// The name of the file.
    pub name: String,
}

} // verus!
