//! The errors that the service's operations report.

use vstd::prelude::*;

verus! {

/// Why an operation of the service failed.
#[derive(Debug, Clone, Copy, PartialEq, Eq, Structural)]
pub enum ServiceError {
    /// No clash core has been started, or it has been stopped since.
    ClashNotExecuted,
    /// No network service matches the machine's default route.
    NoNetworkService,
    /// The output of a system command was not valid UTF-8: it decodes up to
    /// byte `valid_up_to`, where an invalid sequence of `error_len` bytes
    /// starts, or where the output ends within a character (`None`).
    InvalidUtf8 { valid_up_to: usize, error_len: Option<usize> },
}

} // verus!
