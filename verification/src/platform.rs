//! The machines that a program can be fetched for.
use vstd::prelude::*;

verus! {

/// An operating system.
#[derive(Debug, Clone, PartialEq, Eq)]
pub enum Platform {
    /// Microsoft Windows.
    Windows,
    /// Linux.
    Linux,
    /// macOS.
    Mac,
    /// Any other, by its name.
    Unknown(String),
}

/// A processor architecture.
#[derive(Debug, Clone, PartialEq, Eq)]
pub enum Architecture {
    /// 64-bit x86.
    X64,
    /// 32-bit x86.
    X86,
    /// 32-bit ARM, version 7.
    Armv7l,
    /// 64-bit ARM.
    Aarch64,
    /// Any other, by its name.
    Unknown(String),
}

} // verus!
