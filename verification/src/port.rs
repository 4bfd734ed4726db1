//! Addressing of a single frame on a single transport.

use crate::proto::{addr_eq, BROADCAST_ADDR};
use vstd::prelude::*;

verus! {

/// Frame-level addressing hint passed to a transport port.
///
/// This is not the application-level destination of a message: it is how one
/// transport addresses one frame (an ESP-NOW MAC or the broadcast MAC, an
/// MQTT unicast topic or the broadcast topic).
#[derive(Debug, Clone, Copy, PartialEq, Eq)]
pub enum FrameAddr {
    /// Send this frame to a specific peer address, using the transport's own
    /// unicast facility.
    Unicast([u8; 6]),
    /// Send this frame using the transport's broadcast facility.
    Broadcast,
}

impl FrameAddr {
    /// The raw address, with `Broadcast` as [`BROADCAST_ADDR`].
    pub open spec fn bytes(self) -> [u8; 6] {
        match self {
            FrameAddr::Unicast(a) => a,
            FrameAddr::Broadcast => BROADCAST_ADDR,
        }
    }

    /// The addressing that a raw address calls for.
    pub open spec fn of_bytes(addr: [u8; 6]) -> FrameAddr {
        if addr == BROADCAST_ADDR {
            FrameAddr::Broadcast
        } else {
            FrameAddr::Unicast(addr)
        }
    }

    /// Convert to a raw 6-byte address, mapping `Broadcast` to
    /// [`BROADCAST_ADDR`].
    pub fn as_bytes(self) -> (r: [u8; 6])
        ensures
            r == self.bytes(),
    {
        match self {
            FrameAddr::Unicast(a) => a,
            FrameAddr::Broadcast => BROADCAST_ADDR,
        }
    }

    /// Build a [`FrameAddr`] from a raw 6-byte address; `FF:FF:FF:FF:FF:FF`
    /// maps to [`FrameAddr::Broadcast`].
    pub fn from_bytes(addr: [u8; 6]) -> (r: FrameAddr)
        ensures
            r == FrameAddr::of_bytes(addr),
    {
        if addr_eq(&addr, &BROADCAST_ADDR) {
            FrameAddr::Broadcast
        } else {
            FrameAddr::Unicast(addr)
        }
    }
}

impl FrameAddr {
    /// Whether two addressings are the same.
    pub fn same(&self, other: &FrameAddr) -> (r: bool)
        ensures
            r == (*self == *other),
    {
        match (self, other) {
            (FrameAddr::Unicast(a), FrameAddr::Unicast(b)) => addr_eq(a, b),
            (FrameAddr::Broadcast, FrameAddr::Broadcast) => true,
            _ => false,
        }
    }
}

/// Raw addresses survive the round trip through [`FrameAddr`], and so does
/// every addressing but unicast to the broadcast address.
pub proof fn law_addr_round_trip(addr: [u8; 6], frame_addr: FrameAddr)
    ensures
        FrameAddr::of_bytes(addr).bytes() == addr,
        frame_addr != FrameAddr::Unicast(BROADCAST_ADDR) ==> FrameAddr::of_bytes(frame_addr.bytes())
            == frame_addr,
{
}

} // verus!
