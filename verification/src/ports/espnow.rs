//! ESP-NOW transport adapter.
//!
//! ESP-NOW distinguishes unicast and broadcast at the MAC layer. A peer must
//! be registered before frames can be sent to it, and so must the broadcast
//! MAC. The adapter registers peers on demand.

use crate::bounded::BoundedVec;
use crate::bridge::RawFrame;
use crate::error::PortError;
use crate::port::FrameAddr;
use crate::proto::{addr_eq, frame_bytes, Message, Transport, BROADCAST_ADDR, MAX_FRAME};
use vstd::prelude::*;

verus! {

/// Transport port over an ESP-NOW driver. Its view is the driver.
pub struct EspNowPort<R> {
    radio: R,
}

impl<R> View for EspNowPort<R> {
    type V = R;

    closed spec fn view(&self) -> R {
        self.radio
    }
}

/// What to ask of the driver next.
#[derive(Debug, Clone, Copy, PartialEq, Eq)]
pub enum EspNowAction {
    /// Register this MAC as a peer.
    AddPeer([u8; 6]),
    /// Send the frame to this MAC.
    SendTo([u8; 6]),
    /// Nothing more; this came of it.
    Done(Result<(), PortError>),
}

/// The first thing to do to send a frame, given whether the driver knows the
/// peer.
pub open spec fn first_step(addr: FrameAddr, peer_exists: bool) -> EspNowAction {
    if peer_exists {
        EspNowAction::SendTo(addr.bytes())
    } else {
        EspNowAction::AddPeer(addr.bytes())
    }
}

/// What to do after the driver registered a peer, or did not.
pub open spec fn step_after_add(addr: FrameAddr, added: bool) -> EspNowAction {
    if added {
        EspNowAction::SendTo(addr.bytes())
    } else {
        EspNowAction::Done(Err(PortError::UnsupportedAddr))
    }
}

/// What to do after the driver sent a frame, or did not.
pub open spec fn step_after_send(sent: bool) -> EspNowAction {
    EspNowAction::Done(
        if sent {
            Ok(())
        } else {
            Err(PortError::Io)
        },
    )
}

/// The peer to register before exchanging frames with `mac`, if any.
pub open spec fn new_peer(mac: [u8; 6], peer_exists: bool) -> Option<[u8; 6]> {
    if mac != BROADCAST_ADDR && !peer_exists {
        Some(mac)
    } else {
        None
    }
}

impl<R> EspNowPort<R> {
    /// Wrap an ESP-NOW driver.
    pub fn new(radio: R) -> (p: Self)
        ensures
            p@ == radio,
    {
        EspNowPort { radio }
    }

    /// Access the inner radio (for example to drive the receive side from
    /// another task).
    pub fn inner(&mut self) -> (r: &mut R)
        ensures
            *r == old(self)@,
            final(self)@ == *final(r),
    {
        &mut self.radio
    }

    /// Consume the port and return the inner radio driver.
    pub fn into_inner(self) -> (r: R)
        ensures
            r == self@,
    {
        self.radio
    }

    /// The transport of this port.
    pub fn transport(&self) -> (t: Transport)
        ensures
            t == Transport::EspNow,
    {
        Transport::EspNow
    }

    /// Ensure that `mac` is registered as a peer: the first thing to do, given
    /// whether the driver knows the peer already.
    pub fn ensure_peer(&self, mac: [u8; 6], peer_exists: bool) -> (a: EspNowAction)
        ensures
            a == if peer_exists {
                EspNowAction::Done(Ok(()))
            } else {
                EspNowAction::AddPeer(mac)
            },
    {
        if peer_exists {
            return EspNowAction::Done(Ok(()));
        }
        EspNowAction::AddPeer(mac)
    }

    /// What the driver's answer to a registration means.
    pub fn peer_added(&self, added: bool) -> (r: Result<(), PortError>)
        ensures
            added ==> r == Ok::<(), PortError>(()),
            !added ==> r == Err::<(), PortError>(PortError::UnsupportedAddr),
    {
        if added {
            Ok(())
        } else {
            Err(PortError::UnsupportedAddr)
        }
    }

    /// The first thing to do to send a frame, given whether the driver knows
    /// the peer: register it if it does not, send if it does.
    pub fn send_frame(&self, addr: FrameAddr, peer_exists: bool) -> (a: EspNowAction)
        ensures
            a == first_step(addr, peer_exists),
            a == if peer_exists {
                EspNowAction::SendTo(addr.bytes())
            } else {
                EspNowAction::AddPeer(addr.bytes())
            },
    {
        let mac = addr.as_bytes();
        if !peer_exists {
            return EspNowAction::AddPeer(mac);
        }
        EspNowAction::SendTo(mac)
    }

    /// What to do after the driver answered a registration on the way to
    /// sending a frame.
    pub fn after_add_peer(&self, addr: FrameAddr, added: bool) -> (a: EspNowAction)
        ensures
            a == step_after_add(addr, added),
            a == if added {
                EspNowAction::SendTo(addr.bytes())
            } else {
                EspNowAction::Done(Err(PortError::UnsupportedAddr))
            },
    {
        match self.peer_added(added) {
            Ok(()) => EspNowAction::SendTo(addr.as_bytes()),
            Err(e) => EspNowAction::Done(Err(e)),
        }
    }

    /// What the driver's answer to a send means.
    pub fn after_send_to(&self, sent: bool) -> (a: EspNowAction)
        ensures
            a == step_after_send(sent),
            a == EspNowAction::Done(
                if sent {
                    Ok(())
                } else {
                    Err(PortError::Io)
                },
            ),
    {
        if sent {
            EspNowAction::Done(Ok(()))
        } else {
            EspNowAction::Done(Err(PortError::Io))
        }
    }
}

/// The peer to register before exchanging frames with `mac`, if any: every
/// node but the broadcast address, which is registered once at the start.
pub fn peer_to_register(mac: [u8; 6], peer_exists: bool) -> (r: Option<[u8; 6]>)
    ensures
        r == new_peer(mac, peer_exists),
        r == if mac != BROADCAST_ADDR && !peer_exists {
            Some(mac)
        } else {
            None
        },
{
    if !addr_eq(&mac, &BROADCAST_ADDR) && !peer_exists {
        Some(mac)
    } else {
        None
    }
}

/// What to do about a frame that arrived over ESP-NOW.
pub struct EspNowReceived {
    /// A peer to register first, so that it can be answered.
    pub register: Option<[u8; 6]>,
    /// The frame for the bridge, unless it is too long for one.
    pub frame: Option<RawFrame>,
}

/// Decide what to do about `data` from `source`, given whether the driver
/// knows that peer.
pub fn on_received(source: [u8; 6], peer_exists: bool, data: &[u8]) -> (r: EspNowReceived)
    ensures
        r.register == new_peer(source, peer_exists),
        r.register == if source != BROADCAST_ADDR && !peer_exists {
            Some(source)
        } else {
            None
        },
        r.frame is Some <==> data@.len() <= MAX_FRAME,
        r.frame is Some ==> r.frame->0.source == Transport::EspNow && r.frame->0.bytes@ == data@,
{
    EspNowReceived {
        register: peer_to_register(source, peer_exists),
        frame: RawFrame::new(Transport::EspNow, data),
    }
}

/// What to do about a message that is to go out over ESP-NOW.
pub struct EspNowOutbound {
    /// A peer to register first.
    pub register: Option<[u8; 6]>,
    /// Where to send the frame.
    pub mac: [u8; 6],
    /// The frame.
    pub frame: BoundedVec<u8, MAX_FRAME>,
}

/// Decide what to do about an outbound message, given whether the driver knows
/// the peer that `addr` stands for.
pub fn on_outbound(addr: FrameAddr, peer_exists: bool, msg: &Message) -> (r: EspNowOutbound)
    ensures
        r.register == new_peer(addr.bytes(), peer_exists),
        r.register == if addr.bytes() != BROADCAST_ADDR && !peer_exists {
            Some(addr.bytes())
        } else {
            None
        },
        r.mac == addr.bytes(),
        r.frame@ == frame_bytes(msg@),
{
    let mac = addr.as_bytes();
    EspNowOutbound {
        register: peer_to_register(mac, peer_exists),
        mac,
        frame: msg.to_frame(),
    }
}

// ---------------------------------------------------------------------------
// Laws
// ---------------------------------------------------------------------------

/// What came of sending a frame, given what the driver answered to each step.
pub open spec fn send_result(
    addr: FrameAddr,
    peer_exists: bool,
    added: bool,
    sent: bool,
) -> Option<Result<(), PortError>> {
    let second = match first_step(addr, peer_exists) {
        EspNowAction::AddPeer(_) => step_after_add(addr, added),
        other => other,
    };
    let third = match second {
        EspNowAction::SendTo(_) => step_after_send(sent),
        other => other,
    };
    match third {
        EspNowAction::Done(result) => Some(result),
        _ => None,
    }
}

/// Whatever the driver answers, sending a frame ends: it succeeds exactly if
/// the peer is known or could be registered and the frame went out. A peer that
/// cannot be registered and a frame that does not go out are told apart.
pub proof fn law_send_ends(addr: FrameAddr, peer_exists: bool, added: bool, sent: bool)
    ensures
        send_result(addr, peer_exists, added, sent) == Some(
            if !peer_exists && !added {
                Err(PortError::UnsupportedAddr)
            } else if !sent {
                Err(PortError::Io)
            } else {
                Ok::<(), PortError>(())
            },
        ),
{
}

/// A frame goes to the node that it is for, or to every node, and so does the
/// registration before it, which happens exactly if the driver does not know
/// that peer.
pub proof fn law_send_goes_to_addressee(addr: FrameAddr, peer_exists: bool, mac: [u8; 6])
    requires
        addr == FrameAddr::Unicast(mac) || (addr == FrameAddr::Broadcast && mac == BROADCAST_ADDR),
    ensures
        first_step(addr, peer_exists) == EspNowAction::AddPeer(mac) <==> !peer_exists,
        first_step(addr, peer_exists) == EspNowAction::SendTo(mac) <==> peer_exists,
        step_after_add(addr, true) == EspNowAction::SendTo(mac),
{
}

/// Every peer that the driver does not know is registered, and no other; the
/// broadcast address never is.
pub proof fn law_new_peer(mac: [u8; 6], peer_exists: bool)
    ensures
        new_peer(mac, peer_exists) is Some <==> !peer_exists && mac != BROADCAST_ADDR,
        new_peer(mac, peer_exists) matches Some(peer) ==> peer == mac,
{
}

} // verus!
