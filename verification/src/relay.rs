//! The relay engine.
//!
//! - **Fragments** application payloads that exceed a transport's limit into a
//!   sequence of frames, and **reassembles** them on the receive side.
//! - **Deduplicates** by message id so that the same frame cannot loop back
//!   through the mesh.
//! - **Tracks receivers**: which peers are reachable on which transports.
//! - **Fans out** unicast to all transports where the peer is reachable, and
//!   broadcast to all registered transports.
//!
//! The engine performs no I/O. It plans frames ([`Relay::plan_send`],
//! [`Relay::plan_forward`]) for callers that dispatch them, or drives a single
//! port frame by frame ([`Relay::send`], [`Relay::forward`], [`Emission`]).

use crate::bounded::BoundedVec;
use crate::error::{PortError, RelayError};
use crate::fragment::{
    reassemble, slice_limit, split_frames, valid_slots, views, Fragmenter, Group, OutcomeView,
    ReassembleOutcome, Reassembler, RejectReason, MAX_FRAGMENTS,
};
use crate::port::FrameAddr;
use crate::proto::{
    addr_eq, frame_bytes, parse_message, Message, MessageView, MsgKind,
    ProtoError, Transport, BROADCAST_ADDR, DEFAULT_TTL, MAX_FRAME, MAX_PAYLOAD,
};
use crate::receivers::{
    law_listed, listed, row_of, valid_rows, via_of, with_observation, without_peer, ReceiverTable,
    Row,
};
use crate::seen::{remember, SeenCache};
use crate::wire::partly_written;
use vstd::prelude::*;

verus! {

/// How many recently-seen frames a relay remembers.
pub const SEEN_CAPACITY: usize = 64;

/// The most frames that one send can take: [`MAX_FRAGMENTS`] on each of the
/// three transports.
pub const MAX_PLANNED: usize = 96;

/// Application-level destination of a send.
///
/// Distinct from [`FrameAddr`], which is the per-frame addressing hint chosen
/// by the relay engine.
#[derive(Debug, Clone, Copy, PartialEq, Eq)]
pub enum Destination {
    /// Send to a specific peer address. The relay looks the address up in the
    /// [`ReceiverTable`] to decide which transports to use.
    Unicast([u8; 6]),
    /// Broadcast on every registered transport, using each transport's own
    /// broadcast facility.
    Broadcast,
}

impl Destination {
    /// The address that the message is for.
    pub open spec fn to(self) -> [u8; 6] {
        match self {
            Destination::Unicast(a) => a,
            Destination::Broadcast => BROADCAST_ADDR,
        }
    }

    /// How frames to the destination are addressed.
    pub open spec fn addr(self) -> FrameAddr {
        match self {
            Destination::Unicast(a) => FrameAddr::Unicast(a),
            Destination::Broadcast => FrameAddr::Broadcast,
        }
    }

    fn resolve(self) -> (r: ([u8; 6], FrameAddr))
        ensures
            r == (self.to(), self.addr()),
    {
        match self {
            Destination::Unicast(a) => (a, FrameAddr::Unicast(a)),
            Destination::Broadcast => (BROADCAST_ADDR, FrameAddr::Broadcast),
        }
    }
}

/// Result of ingesting an inbound frame.
#[non_exhaustive]
pub enum IngestOutcome {
    /// The frame was a duplicate (id already seen recently). Dropped.
    Duplicate,
    /// A slice was buffered; more slices are pending before the payload is
    /// complete.
    Buffered,
    /// A complete [`Message`] is ready for the application. Whether to forward
    /// it further is up to the caller.
    Complete(Message),
    /// The message is neither for this node nor for every node. It is returned
    /// so the caller can decide to relay it (typical bridge behaviour).
    NotForMe(Message),
    /// A slice was dropped by the reassembler.
    Dropped(RejectReason),
}

/// What came of an inbound frame.
#[verifier::ext_equal]
pub enum IngestView {
    Duplicate,
    Buffered,
    Complete(MessageView),
    NotForMe(MessageView),
    Dropped(RejectReason),
}

impl Clone for IngestOutcome {
    fn clone(&self) -> (r: Self)
        ensures
            r@ == self@,
    {
        match self {
            IngestOutcome::Duplicate => IngestOutcome::Duplicate,
            IngestOutcome::Buffered => IngestOutcome::Buffered,
            IngestOutcome::Complete(m) => IngestOutcome::Complete(m.clone()),
            IngestOutcome::NotForMe(m) => IngestOutcome::NotForMe(m.clone()),
            IngestOutcome::Dropped(r) => IngestOutcome::Dropped(*r),
        }
    }
}

impl PartialEq for IngestOutcome {
    fn eq(&self, other: &Self) -> (r: bool) {
        match (self, other) {
            (IngestOutcome::Duplicate, IngestOutcome::Duplicate) => true,
            (IngestOutcome::Buffered, IngestOutcome::Buffered) => true,
            (IngestOutcome::Complete(a), IngestOutcome::Complete(b)) => *a == *b,
            (IngestOutcome::NotForMe(a), IngestOutcome::NotForMe(b)) => *a == *b,
            (IngestOutcome::Dropped(a), IngestOutcome::Dropped(b)) => *a == *b,
            _ => false,
        }
    }
}

impl vstd::std_specs::cmp::PartialEqSpecImpl for IngestOutcome {
    open spec fn obeys_eq_spec() -> bool {
        true
    }

    open spec fn eq_spec(&self, other: &Self) -> bool {
        self@ == other@
    }
}

impl Eq for IngestOutcome {

}

impl View for IngestOutcome {
    type V = IngestView;

    open spec fn view(&self) -> IngestView {
        match self {
            IngestOutcome::Duplicate => IngestView::Duplicate,
            IngestOutcome::Buffered => IngestView::Buffered,
            IngestOutcome::Complete(m) => IngestView::Complete(m@),
            IngestOutcome::NotForMe(m) => IngestView::NotForMe(m@),
            IngestOutcome::Dropped(r) => IngestView::Dropped(*r),
        }
    }
}

/// A single frame planned for emission by [`Relay::plan_send`] or
/// [`Relay::plan_forward`].
pub struct PlannedFrame {
    /// Which transport should carry this frame.
    pub transport: Transport,
    /// How the transport should address this frame.
    pub addr: FrameAddr,
    /// The message to encode and send.
    pub message: Message,
}

/// What a planned frame says.
#[verifier::ext_equal]
pub struct PlannedView {
    pub transport: Transport,
    pub addr: FrameAddr,
    pub message: MessageView,
}

impl View for PlannedFrame {
    type V = PlannedView;

    open spec fn view(&self) -> PlannedView {
        PlannedView { transport: self.transport, addr: self.addr, message: self.message@ }
    }
}

impl Clone for PlannedFrame {
    fn clone(&self) -> (r: Self)
        ensures
            r@ == self@,
    {
        PlannedFrame { transport: self.transport, addr: self.addr, message: self.message.clone() }
    }
}

impl PartialEq for PlannedFrame {
    fn eq(&self, other: &Self) -> (r: bool) {
        self.transport == other.transport && self.addr.same(&other.addr) && self.message
            == other.message
    }
}

impl vstd::std_specs::cmp::PartialEqSpecImpl for PlannedFrame {
    open spec fn obeys_eq_spec() -> bool {
        true
    }

    open spec fn eq_spec(&self, other: &Self) -> bool {
        self@ == other@
    }
}

impl Eq for PlannedFrame {

}

/// What the frames of a plan say.
pub open spec fn plan_views(frames: Seq<PlannedFrame>) -> Seq<PlannedView> {
    Seq::new(frames.len(), |i: int| frames[i]@)
}

// ---------------------------------------------------------------------------
// What a relay does
// ---------------------------------------------------------------------------

/// The state of a relay.
#[verifier::ext_equal]
pub struct RelayView {
    pub self_addr: [u8; 6],
    /// The message id that is handed out next.
    pub next_id: u32,
    /// The receiver table.
    pub rows: Seq<Row>,
    /// The groups under assembly.
    pub slots: Seq<Option<Group>>,
    /// The keys of recently-seen frames, oldest first.
    pub seen: Seq<u32>,
    /// The registered transports.
    pub ports: Set<Transport>,
}

/// The id that comes `n` after `id`; ids start over behind the largest.
pub open spec fn id_after(id: u32, n: nat) -> u32 {
    ((id + n) % 0x1_0000_0000) as u32
}

impl RelayView {
    /// What holds of every relay with room for `max_peers` peers and `groups`
    /// groups of `per_slot` slices.
    pub open spec fn valid(self, max_peers: nat, groups: nat, per_slot: nat) -> bool {
        &&& self.rows.len() <= max_peers
        &&& valid_rows(self.rows)
        &&& self.slots.len() == groups
        &&& valid_slots(self.slots, per_slot)
        &&& self.seen.len() <= SEEN_CAPACITY
    }

    /// The relay after `n` ids were handed out.
    pub open spec fn ids_taken(self, n: nat) -> RelayView {
        RelayView { next_id: id_after(self.next_id, n), ..self }
    }

    /// The transports that a send to `dest` goes out on: all registered ones
    /// for a broadcast, those of them on which the peer is known for a unicast.
    pub open spec fn targets(self, dest: Destination) -> Result<Seq<Transport>, RelayError> {
        if self.ports == Set::<Transport>::empty() {
            Err(RelayError::NoPortsRegistered)
        } else {
            match dest {
                Destination::Broadcast => Ok(listed(self.ports)),
                Destination::Unicast(a) => match row_of(self.rows, a) {
                    None => Err(RelayError::UnknownReceiver),
                    Some(_) => {
                        let reachable = via_of(self.rows, a).intersect(self.ports);
                        if reachable == Set::<Transport>::empty() {
                            Err(RelayError::NoSuchPort)
                        } else {
                            Ok(listed(reachable))
                        }
                    },
                },
            }
        }
    }

    /// The message that a send puts on transport `t` under the given id.
    pub open spec fn outgoing(
        self,
        id: u32,
        kind: MsgKind,
        payload: Seq<u8>,
        dest: Destination,
        t: Transport,
    ) -> MessageView {
        MessageView {
            id,
            ttl: DEFAULT_TTL,
            origin: t,
            from: self.self_addr,
            to: dest.to(),
            kind,
            payload,
            frag: None,
        }
    }

    /// The frames for the first `n` of the target transports. The message has
    /// the next free id on all of them, and the slices on each transport have
    /// a group id of their own.
    pub open spec fn frames_to(
        self,
        targets: Seq<Transport>,
        n: nat,
        kind: MsgKind,
        payload: Seq<u8>,
        dest: Destination,
    ) -> Seq<PlannedView>
        decreases n,
    {
        if n == 0 {
            Seq::empty()
        } else {
            let t = targets[n - 1];
            let m = self.outgoing(self.next_id, kind, payload, dest, t);
            self.frames_to(targets, (n - 1) as nat, kind, payload, dest) + frames_on(
                m,
                t,
                id_after(self.next_id, n),
                dest.addr(),
            )
        }
    }

    /// The relay after a send was planned, and the plan.
    pub open spec fn send_plan(self, kind: MsgKind, payload: Seq<u8>, dest: Destination) -> (
        RelayView,
        Result<Seq<PlannedView>, RelayError>,
    ) {
        match self.targets(dest) {
            Err(e) => (self, Err(e)),
            Ok(targets) => if payload.len() > MAX_PAYLOAD {
                (self.ids_taken(1), Err(RelayError::Protocol(ProtoError::PayloadTooLarge)))
            } else {
                (
                    self.ids_taken(targets.len() + 1),
                    Ok(self.frames_to(targets, targets.len(), kind, payload, dest)),
                )
            },
        }
    }

    /// The relay after forwarding `m` onto `target` was planned, and the plan:
    /// nothing once the hop budget is spent.
    pub open spec fn forward_plan(self, m: MessageView, target: Transport) -> (
        RelayView,
        Result<Seq<PlannedView>, RelayError>,
    ) {
        match m.relayed() {
            None => (self, Ok(Seq::empty())),
            Some(relayed) => (
                self.ids_taken(1),
                match split_frames(relayed, slice_limit(target), self.next_id) {
                    None => Err(RelayError::PayloadUnfragmentable),
                    Some(frames) => Ok(as_planned(frames, target, FrameAddr::of_bytes(m.to))),
                },
            ),
        }
    }

    /// The relay after a send on one port was started, and what is emitted.
    pub open spec fn send_on(
        self,
        target: Transport,
        kind: MsgKind,
        payload: Seq<u8>,
        dest: Destination,
    ) -> (RelayView, Result<EmissionView, RelayError>) {
        match self.targets(dest) {
            Err(e) => (self, Err(e)),
            Ok(targets) => if !targets.contains(target) {
                (self, Err(RelayError::NoSuchPort))
            } else if payload.len() > MAX_PAYLOAD {
                (self.ids_taken(1), Err(RelayError::Protocol(ProtoError::PayloadTooLarge)))
            } else {
                let m = self.outgoing(self.next_id, kind, payload, dest, target);
                let group_id = id_after(self.next_id, 1);
                (
                    self.ids_taken(2),
                    Ok(
                        EmissionView {
                            frames: split_frames(m, slice_limit(target), group_id)->0,
                            addr: dest.addr(),
                            sent: 0,
                        },
                    ),
                )
            },
        }
    }

    /// The relay after forwarding `m` on one port was started, and what is
    /// emitted: nothing once the hop budget is spent.
    pub open spec fn forward_on(self, target: Transport, m: MessageView) -> (
        RelayView,
        Result<EmissionView, RelayError>,
    ) {
        let addr = FrameAddr::of_bytes(m.to);
        match m.relayed() {
            None => (self, Ok(EmissionView { frames: Seq::empty(), addr, sent: 0 })),
            Some(relayed) => (
                self.ids_taken(1),
                match split_frames(relayed, slice_limit(target), self.next_id) {
                    None => Err(RelayError::PayloadUnfragmentable),
                    Some(frames) => Ok(EmissionView { frames, addr, sent: 0 }),
                },
            ),
        }
    }

    /// What the node makes of a complete message.
    pub open spec fn direct(self, m: MessageView) -> IngestView {
        if m.to == self.self_addr || m.to == BROADCAST_ADDR {
            IngestView::Complete(m)
        } else {
            IngestView::NotForMe(m)
        }
    }

    /// What the node reports when the reassembler is through with a frame.
    pub open spec fn report(self, outcome: OutcomeView) -> IngestView {
        match outcome {
            OutcomeView::Passthrough(m) => self.direct(m),
            OutcomeView::Complete(m) => self.direct(m),
            OutcomeView::Buffered => IngestView::Buffered,
            OutcomeView::Dropped(r) => IngestView::Dropped(r),
        }
    }

    /// The receiver table after a frame from `from` arrived over `source`: the
    /// sender is learned if it is another node and the table has room.
    pub open spec fn rows_after(self, from: [u8; 6], source: Transport, max_peers: nat) -> Seq<
        Row,
    > {
        if from == BROADCAST_ADDR || from == self.self_addr {
            self.rows
        } else {
            match with_observation(self.rows, from, source, max_peers) {
                Some(rows) => rows,
                None => self.rows,
            }
        }
    }

    /// The relay after message `m` arrived over `source`, and what came of it.
    pub open spec fn ingest_message(
        self,
        source: Transport,
        m: MessageView,
        max_peers: nat,
        per_slot: nat,
    ) -> (RelayView, IngestView) {
        let learned = RelayView { rows: self.rows_after(m.from, source, max_peers), ..self };
        if self.seen.contains(dedup_key(m)) {
            (learned, IngestView::Duplicate)
        } else {
            let (slots, outcome) = reassemble(self.slots, m, per_slot);
            let after = RelayView {
                seen: remember(self.seen, dedup_key(m), SEEN_CAPACITY as nat),
                slots,
                ..learned
            };
            (after, self.report(outcome))
        }
    }

    /// The relay after a frame arrived over `source`, and what came of it:
    /// nothing but an error if the bytes hold no message.
    pub open spec fn ingest_frame(
        self,
        source: Transport,
        frame: Seq<u8>,
        max_peers: nat,
        per_slot: nat,
    ) -> (RelayView, Result<IngestView, RelayError>) {
        match parse_message(frame) {
            None => (self, Err(RelayError::Protocol(ProtoError::Decode))),
            Some(m) => {
                let (after, outcome) = self.ingest_message(source, m, max_peers, per_slot);
                (after, Ok(outcome))
            },
        }
    }
}

/// Messages as frames for one transport, all addressed the same way.
pub open spec fn as_planned(frames: Seq<MessageView>, t: Transport, addr: FrameAddr) -> Seq<
    PlannedView,
> {
    Seq::new(frames.len(), |i: int| PlannedView { transport: t, addr, message: frames[i] })
}

/// The frames that carry `m` on transport `t`.
pub open spec fn frames_on(m: MessageView, t: Transport, group_id: u32, addr: FrameAddr) -> Seq<
    PlannedView,
> {
    as_planned(split_frames(m, slice_limit(t), group_id)->0, t, addr)
}

/// What a frame is recognised by when it arrives again: the message id, with
/// the position of a slice mixed in so that the slices of one message are told
/// apart.
pub open spec fn dedup_key(m: MessageView) -> u32 {
    match m.frag {
        Some(f) => m.id ^ ((f.seq as u32) << 16),
        None => m.id,
    }
}

// ---------------------------------------------------------------------------
// The engine
// ---------------------------------------------------------------------------

/// The relay engine.
///
/// `NR` is the number of tracked peers, `NA` the number of concurrent
/// reassembly slots, and `NF` the number of slices per group (at most 64).
#[verifier::reject_recursive_types(NF)]
pub struct Relay<const NR: usize, const NA: usize, const NF: usize> {
    self_addr: [u8; 6],
    id_ctr: u32,
    id_base: u32,
    receivers: ReceiverTable<NR>,
    reassembler: Reassembler<NA, NF>,
    seen: SeenCache<64>,
    /// Which transports have been registered, in [`Transport::ALL`] order.
    registered: [bool; 3],
}

impl<const NR: usize, const NA: usize, const NF: usize> View for Relay<NR, NA, NF> {
    type V = RelayView;

    closed spec fn view(&self) -> RelayView {
        RelayView {
            self_addr: self.self_addr,
            next_id: self.id_base.wrapping_add(self.id_ctr),
            rows: self.receivers@,
            slots: self.reassembler@,
            seen: self.seen@,
            ports: Set::new(|t: Transport| self.registered@[t.index_spec() as int]),
        }
    }
}

impl<const NR: usize, const NA: usize, const NF: usize> Relay<NR, NA, NF> {
    /// The parts are well-formed.
    pub closed spec fn wf(&self) -> bool {
        &&& self.receivers.wf()
        &&& self.reassembler.wf()
        &&& self.seen.wf()
    }

    /// What a well-formed relay promises of its state.
    pub proof fn lemma_wf(&self)
        requires
            self.wf(),
        ensures
            self@.valid(NR as nat, NA as nat, NF as nat),
    {
        self.receivers.lemma_wf();
        self.reassembler.lemma_wf();
        self.seen.lemma_wf();
    }

    /// Create a fresh relay owned by node `self_addr`. Message ids start at
    /// `id_base`, which keeps them from colliding with other nodes' counters.
    pub fn new(self_addr: [u8; 6], id_base: u32) -> (r: Self)
        ensures
            r.wf(),
            r@ == (RelayView {
                self_addr,
                next_id: id_base,
                rows: Seq::empty(),
                slots: Seq::new(NA as nat, |i: int| None::<Group>),
                seen: Seq::empty(),
                ports: Set::empty(),
            }),
    {
        let r = Relay {
            self_addr,
            id_ctr: 0,
            id_base,
            receivers: ReceiverTable::new(),
            reassembler: Reassembler::new(),
            seen: SeenCache::new(),
            registered: [false, false, false],
        };
        assert(r@.ports =~= Set::empty());
        r
    }

    /// Address of the local node.
    pub fn self_addr(&self) -> (r: [u8; 6])
        ensures
            r == self@.self_addr,
    {
        self.self_addr
    }

    /// Allocate a fresh message id: one more than the last, starting over with
    /// zero behind the largest.
    pub fn next_id(&mut self) -> (id: u32)
        requires
            old(self).wf(),
        ensures
            final(self).wf(),
            id == old(self)@.next_id,
            final(self)@ == old(self)@.ids_taken(1),
    {
        let id = self.id_base.wrapping_add(self.id_ctr);
        self.id_ctr = self.id_ctr.wrapping_add(1);
        id
    }

    // -----------------------------------------------------------------------
    // Port registration
    // -----------------------------------------------------------------------

    /// Declare that a transport is available. This does not take ownership of
    /// any hardware; it merely enables fan-out on that transport. It never
    /// fails.
    pub fn register_port(&mut self, t: Transport) -> (r: Result<(), RelayError>)
        requires
            old(self).wf(),
        ensures
            final(self).wf(),
            r is Ok,
            final(self)@ == (RelayView { ports: old(self)@.ports.insert(t), ..old(self)@ }),
    {
        let ghost before = self@;
        let i = t.index() as usize;
        self.registered[i] = true;
        assert(self@.ports =~= before.ports.insert(t));
        Ok(())
    }

    /// Undeclare a transport.
    pub fn unregister_port(&mut self, t: Transport)
        requires
            old(self).wf(),
        ensures
            final(self).wf(),
            final(self)@ == (RelayView { ports: old(self)@.ports.remove(t), ..old(self)@ }),
    {
        let ghost before = self@;
        let i = t.index() as usize;
        self.registered[i] = false;
        assert(self@.ports =~= before.ports.remove(t));
    }

    /// Returns `true` if any transport has been registered.
    pub fn has_ports(&self) -> (b: bool)
        ensures
            b == (self@.ports != Set::<Transport>::empty()),
    {
        let b = self.registered[0] || self.registered[1] || self.registered[2];
        proof {
            if b {
                assert(self@.ports.contains(Transport::Lora) || self@.ports.contains(
                    Transport::Mqtt,
                ) || self@.ports.contains(Transport::EspNow));
            } else {
                assert(self@.ports =~= Set::empty());
            }
        }
        b
    }

    /// Returns `true` if `t` was registered via [`Self::register_port`].
    pub fn is_port_registered(&self, t: Transport) -> (b: bool)
        ensures
            b == self@.ports.contains(t),
    {
        self.registered[t.index() as usize]
    }

    // -----------------------------------------------------------------------
    // Receiver-table management
    // -----------------------------------------------------------------------

    /// Immutable access to the receiver table.
    pub fn receivers(&self) -> (r: &ReceiverTable<NR>)
        requires
            self.wf(),
        ensures
            r.wf(),
            r@ == self@.rows,
    {
        &self.receivers
    }

    /// Explicitly register that `addr` is reachable on `t`.
    ///
    /// # Errors
    /// See [`ReceiverTable::add`].
    pub fn add_receiver(&mut self, addr: [u8; 6], t: Transport) -> (r: Result<bool, RelayError>)
        requires
            old(self).wf(),
        ensures
            final(self).wf(),
            match with_observation(old(self)@.rows, addr, t, NR as nat) {
                Some(rows) => r is Ok && final(self)@ == (RelayView { rows, ..old(self)@ })
                    && r->Ok_0 == !via_of(old(self)@.rows, addr).contains(t),
                None => r is Err && r->Err_0 == RelayError::ReceiverTableFull && final(self)@ == old(
                    self,
                )@,
            },
    {
        self.receivers.add(addr, t)
    }

    /// Remove `addr` entirely from the receiver table.
    pub fn remove_receiver(&mut self, addr: [u8; 6]) -> (r: bool)
        requires
            old(self).wf(),
        ensures
            final(self).wf(),
            final(self)@ == (RelayView {
                rows: without_peer(old(self)@.rows, addr),
                ..old(self)@
            }),
            r == (row_of(old(self)@.rows, addr) is Some),
    {
        self.receivers.remove(addr)
    }

    /// Learn `addr` from an inbound frame arriving via `t`.
    pub fn learn_receiver(&mut self, addr: [u8; 6], t: Transport) -> (r: bool)
        requires
            old(self).wf(),
        ensures
            final(self).wf(),
            match with_observation(old(self)@.rows, addr, t, NR as nat) {
                Some(rows) => final(self)@ == (RelayView { rows, ..old(self)@ }) && r == !via_of(
                    old(self)@.rows,
                    addr,
                ).contains(t),
                None => !r && final(self)@ == old(self)@,
            },
    {
        self.receivers.learn(addr, t)
    }

    // -----------------------------------------------------------------------
    // Planner API
    // -----------------------------------------------------------------------

    /// Compute the frames that should be emitted to send `payload` with `kind`
    /// to `dest`.
    ///
    /// The relay allocates a message id, fragments for every selected target
    /// transport, and returns a list of [`PlannedFrame`]s. Callers push each
    /// frame onto their transport-specific channel.
    ///
    /// # Errors
    /// - [`RelayError::NoPortsRegistered`] when no transport is registered.
    /// - [`RelayError::UnknownReceiver`] when the peer of a unicast is not in
    ///   the receiver table.
    /// - [`RelayError::NoSuchPort`] when it is there, but on no registered
    ///   transport.
    /// - [`RelayError::Protocol`] when the payload is too large.
    pub fn plan_send(&mut self, kind: MsgKind, payload: &[u8], dest: Destination) -> (r: Result<
        BoundedVec<PlannedFrame, MAX_PLANNED>,
        RelayError,
    >)
        requires
            old(self).wf(),
        ensures
            final(self).wf(),
            match old(self)@.send_plan(kind, payload@, dest) {
                (after, Ok(frames)) => final(self)@ == after && r is Ok && plan_views(r->Ok_0@)
                    == frames,
                (after, Err(e)) => final(self)@ == after && r is Err && r->Err_0 == e,
            },
    {
        let ghost before = self@;
        let targets = self.resolve_targets(dest)?;
        let ghost ts = targets@;
        if targets.is_empty() {
            return Err(RelayError::NoPortsRegistered);
        }
        let id = self.next_id();
        let mut out: BoundedVec<PlannedFrame, MAX_PLANNED> = BoundedVec::new();
        let n = targets.len();
        let mut k: usize = 0;
        assert(plan_views(out@) =~= Seq::empty());
        while k < n
            invariant
                self.wf(),
                k <= n <= 3,
                n == ts.len(),
                ts == targets@,
                n > 0,
                id == before.next_id,
                before == old(self)@,
                before.targets(dest) == Ok::<Seq<Transport>, RelayError>(ts),
                self@ == before.ids_taken((k + 1) as nat),
                k > 0 ==> payload@.len() <= MAX_PAYLOAD,
                plan_views(out@) == before.frames_to(ts, k as nat, kind, payload@, dest),
                out@.len() <= k * MAX_FRAGMENTS,
            decreases n - k,
        {
            let t = targets.as_slice()[k];
            proof {
                lemma_id_after(before.next_id, (k + 1) as nat);
            }
            match self.plan_one(id, kind, payload, dest, t, &mut out) {
                Ok(()) => {},
                Err(e) => return Err(e),
            }
            k += 1;
        }
        Ok(out)
    }

    /// Add the frames for one transport to a plan.
    fn plan_one(
        &mut self,
        id: u32,
        kind: MsgKind,
        payload: &[u8],
        dest: Destination,
        t: Transport,
        out: &mut BoundedVec<PlannedFrame, MAX_PLANNED>,
    ) -> (r: Result<(), RelayError>)
        requires
            old(self).wf(),
            old(out)@.len() + MAX_FRAGMENTS <= MAX_PLANNED,
        ensures
            final(self).wf(),
            r is Ok <==> payload@.len() <= MAX_PAYLOAD,
            r is Ok ==> final(self)@ == old(self)@.ids_taken(1),
            r is Ok ==> plan_views(final(out)@) == plan_views(old(out)@) + frames_on(
                old(self)@.outgoing(id, kind, payload@, dest, t),
                t,
                old(self)@.next_id,
                dest.addr(),
            ),
            final(out)@.len() <= old(out)@.len() + MAX_FRAGMENTS,
            r is Err ==> r->Err_0 == RelayError::Protocol(ProtoError::PayloadTooLarge)
                && final(self)@ == old(self)@,
    {
        let (to, addr) = dest.resolve();
        let msg = match Fragmenter::prepare(
            id,
            DEFAULT_TTL,
            t,
            self.self_addr,
            to,
            kind,
            payload,
        ) {
            Ok(m) => m,
            Err(e) => return Err(e),
        };
        let group = self.next_id();
        let frames = match Fragmenter::split(msg, t, group) {
            Ok(f) => f,
            Err(e) => return Err(e),
        };
        append_planned(&frames, t, addr, out);
        Ok(())
    }

    /// Compute the frames needed to forward `msg` onto `target`. Spends one
    /// hop and fragments as needed. Returns an empty list when the hop budget
    /// is spent.
    ///
    /// # Errors
    /// See [`Fragmenter::split`].
    pub fn plan_forward(&mut self, msg: Message, target: Transport) -> (r: Result<
        BoundedVec<PlannedFrame, MAX_FRAGMENTS>,
        RelayError,
    >)
        requires
            old(self).wf(),
        ensures
            final(self).wf(),
            match old(self)@.forward_plan(msg@, target) {
                (after, Ok(frames)) => final(self)@ == after && r is Ok && plan_views(r->Ok_0@)
                    == frames,
                (after, Err(e)) => final(self)@ == after && r is Err && r->Err_0 == e,
            },
    {
        let mut out: BoundedVec<PlannedFrame, MAX_FRAGMENTS> = BoundedVec::new();
        assert(plan_views(out@) =~= Seq::empty());
        let relayed = match msg.prepared_for_relay() {
            Some(m) => m,
            None => return Ok(out),
        };
        let ghost m = relayed@;
        let addr = FrameAddr::from_bytes(relayed.to);
        let group = self.next_id();
        let frames = match Fragmenter::split(relayed, target, group) {
            Ok(f) => f,
            Err(e) => return Err(e),
        };
        append_planned(&frames, target, addr, &mut out);
        assert(plan_views(out@) =~= frames_on(m, target, group, addr));
        Ok(out)
    }

    // -----------------------------------------------------------------------
    // One port, frame by frame
    // -----------------------------------------------------------------------

    /// Start sending a payload on the port of transport `target`, and only on
    /// that one. The frames go out as the [`Emission`] says.
    ///
    /// # Errors
    /// - [`RelayError::NoPortsRegistered`] when no transport is registered.
    /// - [`RelayError::UnknownReceiver`] when the peer of a unicast is not in
    ///   the receiver table.
    /// - [`RelayError::NoSuchPort`] when `target` is none of the transports
    ///   that the send would go out on.
    /// - [`RelayError::Protocol`] when the payload is too large.
    pub fn send(&mut self, target: Transport, kind: MsgKind, payload: &[u8], dest: Destination) -> (r:
        Result<Emission, RelayError>)
        requires
            old(self).wf(),
        ensures
            final(self).wf(),
            match old(self)@.send_on(target, kind, payload@, dest) {
                (after, Ok(emission)) => final(self)@ == after && r is Ok && r->Ok_0@ == emission
                    && r->Ok_0.wf(),
                (after, Err(e)) => final(self)@ == after && r is Err && r->Err_0 == e,
            },
    {
        let targets = self.resolve_targets(dest)?;
        let ghost ts = targets@;
        let mut found = false;
        let mut i: usize = 0;
        while i < targets.len()
            invariant
                i <= targets@.len(),
                ts == targets@,
                found == ts.take(i as int).contains(target),
            decreases targets@.len() - i,
        {
            let t = targets.as_slice()[i];
            proof {
                let so_far = ts.take(i as int);
                let next = ts.take(i + 1);
                assert(next =~= so_far.push(t));
                assert(next[i as int] == t);
                if so_far.contains(target) {
                    let j = choose|j: int| 0 <= j < i && so_far[j] == target;
                    assert(next[j] == target);
                }
            }
            if t == target {
                found = true;
            }
            i += 1;
        }
        assert(ts.take(i as int) =~= ts);
        if !found {
            return Err(RelayError::NoSuchPort);
        }
        let id = self.next_id();
        let (to, addr) = dest.resolve();
        let msg = match Fragmenter::prepare(
            id,
            DEFAULT_TTL,
            target,
            self.self_addr,
            to,
            kind,
            payload,
        ) {
            Ok(m) => m,
            Err(e) => return Err(e),
        };
        self.emit(target, msg, addr)
    }

    /// Start forwarding an existing [`Message`] on the port of transport
    /// `target`.
    ///
    /// # Errors
    /// See [`Fragmenter::split`].
    pub fn forward(&mut self, target: Transport, msg: Message) -> (r: Result<Emission, RelayError>)
        requires
            old(self).wf(),
        ensures
            final(self).wf(),
            match old(self)@.forward_on(target, msg@) {
                (after, Ok(emission)) => final(self)@ == after && r is Ok && r->Ok_0@ == emission
                    && r->Ok_0.wf(),
                (after, Err(e)) => final(self)@ == after && r is Err && r->Err_0 == e,
            },
    {
        let addr = FrameAddr::from_bytes(msg.to);
        match msg.prepared_for_relay() {
            None => {
                let none = Emission { frames: BoundedVec::new(), addr, sent: 0 };
                assert(none@.frames =~= Seq::empty());
                Ok(none)
            },
            Some(relayed) => self.emit(target, relayed, addr),
        }
    }

    fn emit(&mut self, target: Transport, msg: Message, addr: FrameAddr) -> (r: Result<
        Emission,
        RelayError,
    >)
        requires
            old(self).wf(),
        ensures
            final(self).wf(),
            final(self)@ == old(self)@.ids_taken(1),
            match split_frames(msg@, slice_limit(target), old(self)@.next_id) {
                Some(frames) => r is Ok && r->Ok_0.wf() && r->Ok_0@ == (EmissionView {
                    frames,
                    addr,
                    sent: 0,
                }),
                None => r is Err && r->Err_0 == RelayError::PayloadUnfragmentable,
            },
            msg@.frag is None ==> r is Ok,
    {
        let group = self.next_id();
        match Fragmenter::split(msg, target, group) {
            Ok(frames) => Ok(Emission { frames, addr, sent: 0 }),
            Err(e) => Err(e),
        }
    }

    /// The transports that a send to `dest` goes out on.
    fn resolve_targets(&self, dest: Destination) -> (r: Result<BoundedVec<Transport, 3>, RelayError>)
        requires
            self.wf(),
        ensures
            match self@.targets(dest) {
                Ok(ts) => r is Ok && r->Ok_0@ == ts && ts.len() > 0,
                Err(e) => r is Err && r->Err_0 == e,
            },
    {
        if !self.has_ports() {
            return Err(RelayError::NoPortsRegistered);
        }
        let ghost ports = self@.ports;
        let mut out: BoundedVec<Transport, 3> = BoundedVec::new();
        match dest {
            Destination::Broadcast => {
                self.push_if(true, Transport::Lora, &mut out);
                self.push_if(true, Transport::Mqtt, &mut out);
                self.push_if(true, Transport::EspNow, &mut out);
                proof {
                    assert(out@ =~= listed(ports));
                    law_listed(ports);
                    lemma_nonempty(ports);
                }
            },
            Destination::Unicast(addr) => {
                let row = match self.receivers.lookup(addr) {
                    Some(row) => row,
                    None => return Err(RelayError::UnknownReceiver),
                };
                let ghost via = via_of(self@.rows, addr);
                self.push_if(row.reachable_via(Transport::Lora), Transport::Lora, &mut out);
                self.push_if(row.reachable_via(Transport::Mqtt), Transport::Mqtt, &mut out);
                self.push_if(row.reachable_via(Transport::EspNow), Transport::EspNow, &mut out);
                proof {
                    assert(out@ =~= listed(via.intersect(ports)));
                    law_listed(via.intersect(ports));
                    lemma_nonempty(via.intersect(ports));
                }
                if out.is_empty() {
                    return Err(RelayError::NoSuchPort);
                }
            },
        }
        Ok(out)
    }

    /// Append `t` if it is wanted and registered.
    fn push_if(&self, wanted: bool, t: Transport, out: &mut BoundedVec<Transport, 3>)
        requires
            old(out)@.len() < 3,
        ensures
            final(out)@ == old(out)@ + if wanted && self@.ports.contains(t) {
                seq![t]
            } else {
                Seq::empty()
            },
    {
        if wanted && self.is_port_registered(t) {
            let _ = out.push(t);
        }
    }

    // -----------------------------------------------------------------------
    // Receiving
    // -----------------------------------------------------------------------

    /// Handle bytes arriving from `source`. The byte slice must contain a
    /// single encoded [`Message`] frame.
    ///
    /// # Errors
    /// Returns [`RelayError::Protocol`] if the bytes cannot be decoded.
    pub fn ingest(&mut self, source: Transport, frame: &[u8]) -> (r: Result<
        IngestOutcome,
        RelayError,
    >)
        requires
            old(self).wf(),
        ensures
            final(self).wf(),
            match old(self)@.ingest_frame(source, frame@, NR as nat, NF as nat) {
                (after, Ok(outcome)) => final(self)@ == after && r is Ok && r->Ok_0@ == outcome,
                (after, Err(e)) => final(self)@ == after && r is Err && r->Err_0 == e,
            },
    {
        let msg = match Message::decode(frame) {
            Ok(m) => m,
            Err(e) => return Err(RelayError::from(e)),
        };
        if !addr_eq(&msg.from, &BROADCAST_ADDR) && !addr_eq(&msg.from, &self.self_addr) {
            let _ = self.receivers.add(msg.from, source);
        }
        let key: u32 = match msg.frag {
            Some(f) => msg.id ^ ((f.seq as u32) << 16),
            None => msg.id,
        };
        if !self.seen.check_and_insert(key) {
            return Ok(IngestOutcome::Duplicate);
        }
        let outcome = self.reassembler.ingest(msg);
        let result = match outcome {
            ReassembleOutcome::Passthrough(m) => self.direct(m),
            ReassembleOutcome::Complete(m) => self.direct(m),
            ReassembleOutcome::Buffered => IngestOutcome::Buffered,
            ReassembleOutcome::Dropped(r) => IngestOutcome::Dropped(r),
        };
        Ok(result)
    }

    fn direct(&self, msg: Message) -> (r: IngestOutcome)
        ensures
            r@ == self@.direct(msg@),
    {
        if addr_eq(&msg.to, &self.self_addr) || msg.is_broadcast() {
            IngestOutcome::Complete(msg)
        } else {
            IngestOutcome::NotForMe(msg)
        }
    }
}

// ---------------------------------------------------------------------------
// Emission
// ---------------------------------------------------------------------------

/// Frames on their way out through one port.
///
/// The caller asks [`Emission::start`] what to do, does it, and hands the
/// port's answer to [`Emission::after_send`], until the emission is done.
pub struct Emission {
    frames: BoundedVec<Message, MAX_FRAGMENTS>,
    addr: FrameAddr,
    sent: usize,
}

/// The state of an emission.
#[verifier::ext_equal]
pub struct EmissionView {
    pub frames: Seq<MessageView>,
    pub addr: FrameAddr,
    /// How many of the frames went out.
    pub sent: nat,
}

impl View for Emission {
    type V = EmissionView;

    closed spec fn view(&self) -> EmissionView {
        EmissionView { frames: views(self.frames@), addr: self.addr, sent: self.sent as nat }
    }
}

/// What the owner of the port has to do next.
#[derive(Debug, Clone, Copy, PartialEq, Eq)]
pub enum EmitAction {
    /// Send the first `len` bytes of the buffer with this addressing.
    Send { addr: FrameAddr, len: usize },
    /// Nothing more: so many frames went out, or this went wrong.
    Done(Result<usize, RelayError>),
}

impl EmissionView {
    /// What to do next, and the frame to be written to the buffer.
    pub open spec fn next_action(self, room: nat) -> (EmitAction, Seq<u8>) {
        if self.sent < self.frames.len() {
            let bytes = frame_bytes(self.frames[self.sent as int]);
            if bytes.len() <= room {
                (EmitAction::Send { addr: self.addr, len: bytes.len() as usize }, bytes)
            } else {
                (EmitAction::Done(Err(RelayError::Protocol(ProtoError::BufferTooSmall))), bytes)
            }
        } else {
            (EmitAction::Done(Ok(self.sent as usize)), Seq::empty())
        }
    }

    /// Whether taking the next step can turn `before` into `after` as the
    /// contents of the buffer: the frame is written to its front if it fits.
    pub open spec fn writes(self, before: Seq<u8>, after: Seq<u8>) -> bool {
        let bytes = self.next_action(before.len()).1;
        if bytes.len() <= before.len() {
            after == bytes + before.skip(bytes.len() as int)
        } else {
            partly_written(before, after, bytes)
        }
    }

    /// The emission after one more frame went out.
    pub open spec fn one_sent(self) -> EmissionView {
        EmissionView { sent: self.sent + 1, ..self }
    }
}

impl Emission {
    /// No more frames went out than there are.
    pub closed spec fn wf(&self) -> bool {
        self.sent <= self.frames@.len() <= MAX_FRAGMENTS
    }

    /// What to do first. The frame to send is written to the front of `buf`; a
    /// buffer of [`MAX_FRAME`] bytes is always large enough.
    pub fn start(&self, buf: &mut [u8]) -> (action: EmitAction)
        requires
            self.wf(),
        ensures
            final(buf)@.len() == old(buf)@.len(),
            action == self@.next_action(old(buf)@.len()).0,
            self@.writes(old(buf)@, final(buf)@),
            old(buf)@.len() >= MAX_FRAME ==> !(action matches EmitAction::Done(Err(_))),
    {
        if self.sent >= self.frames.len() {
            assert(Seq::<u8>::empty() + buf@.skip(0) =~= buf@);
            return EmitAction::Done(Ok(self.sent));
        }
        let message = &self.frames.as_slice()[self.sent];
        assert(self@.frames[self.sent as int] == message@);
        match message.encode(buf) {
            Ok(out) => EmitAction::Send { addr: self.addr, len: out.len() },
            Err(e) => EmitAction::Done(Err(RelayError::from(e))),
        }
    }

    /// What to do after a frame was handed to the port, which answered with
    /// `result`: go on with the next frame, or give up with the port's error.
    pub fn after_send(&mut self, result: Result<(), PortError>, buf: &mut [u8]) -> (action:
        EmitAction)
        requires
            old(self).wf(),
            old(self)@.sent < old(self)@.frames.len(),
        ensures
            final(self).wf(),
            final(buf)@.len() == old(buf)@.len(),
            result matches Err(e) ==> action == EmitAction::Done(Err(RelayError::Port(e)))
                && final(self)@ == old(self)@ && final(buf)@ == old(buf)@,
            result is Ok ==> {
                &&& final(self)@ == old(self)@.one_sent()
                &&& action == old(self)@.one_sent().next_action(old(buf)@.len()).0
                &&& old(self)@.one_sent().writes(old(buf)@, final(buf)@)
                &&& old(buf)@.len() >= MAX_FRAME ==> !(action matches EmitAction::Done(Err(_)))
            },
    {
        match result {
            Ok(()) => {
                self.sent += 1;
                self.start(buf)
            },
            Err(e) => EmitAction::Done(Err(RelayError::from(e))),
        }
    }
}

/// Handing out ids one by one.
proof fn lemma_id_after(id: u32, n: nat)
    ensures
        id_after(id_after(id, n), 1) == id_after(id, n + 1),
        id_after(id, 0) == id,
{
}

/// Append `frames` to a plan, for transport `t`.
fn append_planned<const N: usize>(
    frames: &BoundedVec<Message, MAX_FRAGMENTS>,
    t: Transport,
    addr: FrameAddr,
    out: &mut BoundedVec<PlannedFrame, N>,
)
    requires
        old(out)@.len() + MAX_FRAGMENTS <= N,
    ensures
        plan_views(final(out)@) == plan_views(old(out)@) + as_planned(views(frames@), t, addr),
        final(out)@.len() <= old(out)@.len() + MAX_FRAGMENTS,
{
    let ghost done = out@;
    let ghost planned = as_planned(views(frames@), t, addr);
    let count = frames.len();
    let mut j: usize = 0;
    assert(plan_views(out@) =~= plan_views(done) + planned.take(0));
    while j < count
        invariant
            j <= count <= MAX_FRAGMENTS,
            count == frames@.len(),
            done.len() + MAX_FRAGMENTS <= N,
            out@.len() == done.len() + j,
            planned == as_planned(views(frames@), t, addr),
            plan_views(out@) == plan_views(done) + planned.take(j as int),
        decreases count - j,
    {
        let frame = PlannedFrame { transport: t, addr, message: frames.as_slice()[j].clone() };
        let ghost so_far = out@;
        let _ = out.push(frame);
        proof {
            assert(frame@ == planned[j as int]);
            assert(plan_views(out@) =~= plan_views(so_far).push(frame@));
            assert(planned.take(j + 1) =~= planned.take(j as int).push(frame@));
        }
        j += 1;
    }
    assert(planned.take(j as int) =~= planned);
}

/// Append a plan to another.
pub(crate) fn append_plan<const M: usize, const N: usize>(
    plan: &BoundedVec<PlannedFrame, M>,
    out: &mut BoundedVec<PlannedFrame, N>,
)
    requires
        old(out)@.len() + M <= N,
    ensures
        plan_views(final(out)@) == plan_views(old(out)@) + plan_views(plan@),
        final(out)@.len() <= old(out)@.len() + M,
{
    let ghost done = out@;
    let ghost planned = plan_views(plan@);
    let count = plan.len();
    let mut j: usize = 0;
    assert(plan_views(out@) =~= plan_views(done) + planned.take(0));
    while j < count
        invariant
            j <= count <= M,
            count == plan@.len(),
            done.len() + M <= N,
            out@.len() == done.len() + j,
            planned == plan_views(plan@),
            plan_views(out@) == plan_views(done) + planned.take(j as int),
        decreases count - j,
    {
        let frame = plan.as_slice()[j].clone();
        let ghost so_far = out@;
        let _ = out.push(frame);
        proof {
            assert(frame@ == planned[j as int]);
            assert(plan_views(out@) =~= plan_views(so_far).push(frame@));
            assert(planned.take(j + 1) =~= planned.take(j as int).push(frame@));
        }
        j += 1;
    }
    assert(planned.take(j as int) =~= planned);
}

/// A set of transports that is not empty has one of the three in it.
proof fn lemma_nonempty(s: Set<Transport>)
    ensures
        s == Set::<Transport>::empty() <==> listed(s).len() == 0,
{
    if !s.contains(Transport::Lora) && !s.contains(Transport::Mqtt) && !s.contains(
        Transport::EspNow,
    ) {
        assert(s =~= Set::empty());
    }
}

} // verus!
