//! The engine's error taxonomy.  Packet-level errors are recoverable and
//! local to one segment; `ConnectionReset` ends the receive-poll loop; the
//! API-level `BadDescriptor` rejects a close in a disallowed state.
//!
//! Each error carries the errno that the platform's C library assigns to
//! its condition, read through `libc`.

use vstd::prelude::*;

verus! {

/// Why a packet was dropped or an operation refused.
#[derive(Clone, Copy, PartialEq, Eq, Structural, Debug)]
pub enum TcpError {
    /// A malformed or unacceptable segment: dropped, connection continues.
    BadMessage,
    /// The peer reset the connection, or the connection has ended.
    ConnectionReset,
    /// `close` was called in a state that does not allow it.
    BadDescriptor,
}

/// Relies on `libc::EBADMSG`: 74 on this Linux target.
#[verifier::external_body]
fn errno_bad_message() -> (r: i32)
    ensures
        r == 74i32,
{
    libc::EBADMSG
}

/// Relies on `libc::ECONNRESET`: 104 on this Linux target.
#[verifier::external_body]
fn errno_connection_reset() -> (r: i32)
    ensures
        r == 104i32,
{
    libc::ECONNRESET
}

/// Relies on `libc::EBADF`: 9 on this Linux target.
#[verifier::external_body]
fn errno_bad_descriptor() -> (r: i32)
    ensures
        r == 9i32,
{
    libc::EBADF
}

impl TcpError {
    /// The errno value of this error.
    pub open spec fn errno_spec(self) -> i32 {
        match self {
            TcpError::BadMessage => 74i32,
            TcpError::ConnectionReset => 104i32,
            TcpError::BadDescriptor => 9i32,
        }
    }

    /// The platform errno for this error.
    pub fn errno(self) -> (r: i32)
        ensures
            r == self.errno_spec(),
    {
        match self {
            TcpError::BadMessage => errno_bad_message(),
            TcpError::ConnectionReset => errno_connection_reset(),
            TcpError::BadDescriptor => errno_bad_descriptor(),
        }
    }
}

} // verus!
