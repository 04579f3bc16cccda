//! A local website blocklist and its hosts-file synchronization logic.
//!
//! The crate models a blocklist of permanent and time-limited domains,
//! validates and normalizes user-entered domains, expands each domain into
//! the alias variants that are blocked together, and computes the exact
//! text that the system hosts file must hold for the current blocklist
//! state.  All file and process I/O stays outside the library: callers
//! hand in file contents, timestamps and permission verdicts as plain
//! values and write back what the library returns.
use vstd::prelude::*;

pub mod codec;
pub mod domain;
pub mod hosts;
pub mod ops;
pub mod store;
pub mod strutil;

verus! {

/// Why a raw user input was rejected by the domain validator.
#[derive(Debug, Clone, Copy, PartialEq, Eq, Structural)]
pub enum ValidationError {
    /// The input could not be parsed as a URL at all.
    InvalidFormat,
    /// The input parsed, but no host component could be extracted.
    MissingHost,
}

/// Why a hosts-file synchronization attempt was refused.
#[derive(Debug, Clone, Copy, PartialEq, Eq, Structural)]
pub enum SyncError {
    /// The caller does not hold the privilege needed to edit the hosts file.
    PermissionDenied,
}

/// Why startup normalization of the hosts file was refused.
#[derive(Debug, Clone, Copy, PartialEq, Eq, Structural)]
pub enum NormalizeError {
    /// The fixed DNS-resolution sentinel comment is absent from the file.
    DnsMarkerNotFound,
}

} // verus!
