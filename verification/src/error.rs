//! Error types of the relay engine.
//!
//! Transport-level failures use [`PortError`], engine failures use
//! [`RelayError`].

use crate::proto::ProtoError;
use vstd::prelude::*;
use vstd::string::StringExecFns;

verus! {

/// Error emitted by a transport port.
///
/// Adapters reduce their own hardware errors to these coarse variants, so
/// that the engine can reason about them uniformly.
#[derive(Debug, Clone, Copy, PartialEq, Eq, Structural)]
#[non_exhaustive]
pub enum PortError {
    /// The underlying radio, socket or peripheral rejected the send.
    Io,
    /// The transport is currently offline (no link, not connected, not paired).
    NotReady,
    /// The frame exceeds a limit the hardware refused to accept.
    FrameTooLarge,
    /// The transport does not support the requested addressing mode, such as
    /// unicast to an unregistered ESP-NOW peer.
    UnsupportedAddr,
}

impl PortError {
    /// What went wrong, in words.
    pub open spec fn describes(self) -> Seq<char> {
        match self {
            PortError::Io => "transport i/o error"@,
            PortError::NotReady => "transport not ready"@,
            PortError::FrameTooLarge => "frame too large for transport"@,
            PortError::UnsupportedAddr => "unsupported addressing mode"@,
        }
    }

    /// What went wrong, in words.
    pub fn describe(&self) -> (s: &'static str)
        ensures
            s@ == self.describes(),
    {
        match self {
            PortError::Io => "transport i/o error",
            PortError::NotReady => "transport not ready",
            PortError::FrameTooLarge => "frame too large for transport",
            PortError::UnsupportedAddr => "unsupported addressing mode",
        }
    }
}

/// Errors returned by the relay engine.
#[derive(Debug, Clone, Copy, PartialEq, Eq, Structural)]
#[non_exhaustive]
pub enum RelayError {
    /// A unicast was requested but the recipient is not in the receiver table.
    /// Register the receiver first, or broadcast.
    UnknownReceiver,
    /// No port has been registered for the target transport: the recipient of
    /// a unicast is known, but on no registered transport, or the port at hand
    /// is none of those that a send goes out on.
    NoSuchPort,
    /// No transports are currently registered at all.
    NoPortsRegistered,
    /// The payload cannot be cut into few enough slices for the target
    /// transport, or is a slice already and too long for it.
    PayloadUnfragmentable,
    /// A message could not be built, encoded or decoded.
    Protocol(ProtoError),
    /// The underlying transport port returned an error.
    Port(PortError),
    /// The receiver table is full and cannot admit a new peer.
    ReceiverTableFull,
    /// The reassembler dropped the message. For callers that log or count
    /// these.
    ReassemblyFailed,
}

impl RelayError {
    /// What went wrong, in words.
    pub open spec fn describes(self) -> Seq<char> {
        match self {
            RelayError::UnknownReceiver => "unknown unicast receiver"@,
            RelayError::NoSuchPort => "no port registered for target transport"@,
            RelayError::NoPortsRegistered => "no transport ports registered"@,
            RelayError::PayloadUnfragmentable => "payload cannot be fragmented"@,
            RelayError::Protocol(e) => "protocol error: "@ + e.describes(),
            RelayError::Port(e) => "port error: "@ + e.describes(),
            RelayError::ReceiverTableFull => "receiver table full"@,
            RelayError::ReassemblyFailed => "fragment reassembly failed"@,
        }
    }

    /// What went wrong, in words.
    pub fn describe(&self) -> (s: String)
        ensures
            s@ == self.describes(),
    {
        match self {
            RelayError::UnknownReceiver => String::from_str("unknown unicast receiver"),
            RelayError::NoSuchPort => String::from_str("no port registered for target transport"),
            RelayError::NoPortsRegistered => String::from_str("no transport ports registered"),
            RelayError::PayloadUnfragmentable => String::from_str("payload cannot be fragmented"),
            RelayError::Protocol(e) => String::from_str("protocol error: ").concat(e.describe()),
            RelayError::Port(e) => String::from_str("port error: ").concat(e.describe()),
            RelayError::ReceiverTableFull => String::from_str("receiver table full"),
            RelayError::ReassemblyFailed => String::from_str("fragment reassembly failed"),
        }
    }
}

impl From<ProtoError> for RelayError {
    fn from(e: ProtoError) -> (r: RelayError) {
        RelayError::Protocol(e)
    }
}

impl vstd::std_specs::convert::FromSpecImpl<ProtoError> for RelayError {
    open spec fn obeys_from_spec() -> bool {
        true
    }

    open spec fn from_spec(e: ProtoError) -> RelayError {
        RelayError::Protocol(e)
    }
}

impl From<PortError> for RelayError {
    fn from(e: PortError) -> (r: RelayError) {
        RelayError::Port(e)
    }
}

impl vstd::std_specs::convert::FromSpecImpl<PortError> for RelayError {
    open spec fn obeys_from_spec() -> bool {
        true
    }

    open spec fn from_spec(e: PortError) -> RelayError {
        RelayError::Port(e)
    }
}

} // verus!
