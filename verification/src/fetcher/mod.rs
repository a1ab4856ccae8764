//! Fetching data from a URL.
use crate::text::{decimal, to_decimal};
use vstd::prelude::*;
use vstd::string::StringExecFns;

pub mod deps;
pub mod download_manager;
pub mod headers;
pub mod manager_laws;
pub mod parts;
pub mod request;
pub mod retry;
pub mod segment_task;
pub mod segments;
pub mod simple;

verus! {

/// How many parallel segments a fetcher uses unless it is told otherwise.
pub const DEFAULT_PARALLEL_SEGMENTS: usize = 4;

/// The size of a segment in bytes unless the fetcher is told otherwise: 5 MB.
pub const DEFAULT_SEGMENT_SIZE: usize = 5_242_880;

/// How often a segment is tried unless the fetcher is told otherwise.
pub const DEFAULT_RETRY_ATTEMPTS: usize = 3;

/// Downloads the data at a URL, with parallel segments and download resumption.
///
/// `C` is the type of the progress callback that the fetcher carries.
pub struct Fetcher<C> {
    /// The URL from which to download the data.
    pub url: String,
    /// The number of parallel segments to use for downloading.
    pub parallel_segments: usize,
    /// The size of each segment in bytes.
    pub segment_size: usize,
    /// The number of download attempts in case of failure.
    pub retry_attempts: usize,
    /// How many bytes a download may hold in memory, if that is limited.
    pub max_buffer_size: Option<usize>,
    /// Callback for tracking download progress.
    pub progress_callback: Option<C>,
}

impl<C> Fetcher<C> {
    /// Creates a new fetcher for the given URL, with the default settings.
    pub fn new(url: &str) -> (res: Self)
        ensures
            res.url@ == url@,
            res.parallel_segments == DEFAULT_PARALLEL_SEGMENTS,
            res.segment_size == DEFAULT_SEGMENT_SIZE,
            res.retry_attempts == DEFAULT_RETRY_ATTEMPTS,
            res.max_buffer_size is None,
            res.progress_callback is None,
    {
        Fetcher {
            url: url.to_string(),
            parallel_segments: DEFAULT_PARALLEL_SEGMENTS,
            segment_size: DEFAULT_SEGMENT_SIZE,
            retry_attempts: DEFAULT_RETRY_ATTEMPTS,
            max_buffer_size: None,
            progress_callback: None,
        }
    }

    /// Configures the number of parallel segments for downloading.
    pub fn with_parallel_segments(self, segments: usize) -> (res: Self)
        ensures
            res == (Fetcher { parallel_segments: segments, ..self }),
    {
        Fetcher { parallel_segments: segments, ..self }
    }

    /// Configures the size of each segment in bytes.
    pub fn with_segment_size(self, size: usize) -> (res: Self)
        ensures
            res == (Fetcher { segment_size: size, ..self }),
    {
        Fetcher { segment_size: size, ..self }
    }

    /// Configures the number of download attempts in case of failure.
    pub fn with_retry_attempts(self, attempts: usize) -> (res: Self)
        ensures
            res == (Fetcher { retry_attempts: attempts, ..self }),
    {
        Fetcher { retry_attempts: attempts, ..self }
    }

    /// Limits how many bytes a download may hold in memory.
    pub fn with_max_buffer_size(self, size: usize) -> (res: Self)
        ensures
            res == (Fetcher { max_buffer_size: Some(size), ..self }),
    {
        Fetcher { max_buffer_size: Some(size), ..self }
    }

    /// Configures a callback for tracking download progress.
    pub fn with_progress_callback(self, callback: C) -> (res: Self)
        ensures
            res == (Fetcher { progress_callback: Some(callback), ..self }),
    {
        Fetcher { progress_callback: Some(callback), ..self }
    }

    /// The fetcher in words: its URL and its number of segments.
    pub fn to_text(&self) -> (res: String)
        ensures
            res@ == "Fetcher(url="@ + self.url@ + ", segments="@ + decimal(
                self.parallel_segments as nat,
            ) + ")"@,
    {
        let mut res = "Fetcher(url=".to_string();
        res.append(self.url.as_str());
        res.append(", segments=");
        res.append(to_decimal(self.parallel_segments as u64).as_str());
        res.append(")");
        res
    }
}

} // verus!
