//! Replies of the remote store as the adapter discriminates them, and
//! the adapter's own error type.
//!
//! The remote store answers every node operation with a discriminated
//! result.  The adapter pattern-matches only on "no such node"; every
//! other failure is folded into one opaque kind that carries the
//! underlying cause.

use vstd::prelude::*;

verus! {

/// Why the remote store refused an operation, beyond "no such node".
#[derive(Clone, Copy, PartialEq, Eq, Structural, Debug)]
pub enum RemoteCause {
    /// A creation hit a path that already exists.
    NodeExists,
    /// A "no such node" reply surfaced where the adapter does not
    /// tolerate it (while filling a freshly probed gap, or at the root).
    NoNode,
    /// A deletion addressed a node that still has children.
    NotEmpty,
    /// The transport failed while connecting.
    ConnectFailed,
    /// The store rejected the authentication token.
    AuthFailed,
    /// Any other discriminated failure of the remote store.
    Other,
}

/// The adapter's error: every failure that is not "no such node" is
/// surfaced as one unexpected failure carrying the underlying cause.
#[derive(Clone, Copy, PartialEq, Eq, Structural, Debug)]
pub enum AdapterError {
    Unexpected(RemoteCause),
}

/// The reply to a node creation.
#[derive(Clone, Copy, PartialEq, Eq, Structural, Debug)]
pub enum CreateReply {
    Created,
    NoNode,
    Fault(RemoteCause),
}

/// The reply to a node read.
#[derive(Debug)]
pub enum GetReply {
    Data(Vec<u8>),
    NoNode,
    Fault(RemoteCause),
}

/// The reply to an in-place value update.
#[derive(Clone, Copy, PartialEq, Eq, Structural, Debug)]
pub enum SetReply {
    Updated,
    NoNode,
    Fault(RemoteCause),
}

/// The reply to a node deletion.
#[derive(Clone, Copy, PartialEq, Eq, Structural, Debug)]
pub enum DeleteReply {
    Deleted,
    NoNode,
    Fault(RemoteCause),
}

} // verus!
