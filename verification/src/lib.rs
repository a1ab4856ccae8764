//! Planning and bookkeeping for fetching files over HTTP: how a file is cut into segments,
//! how an interrupted download is taken up again, in which order queued downloads run, and
//! which ffmpeg build fits a machine.
//!
//! The library decides; it opens no file and no connection.
pub mod error;
pub mod fetcher;
pub mod platform;
pub mod text;
