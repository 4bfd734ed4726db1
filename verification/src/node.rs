//! The simple LoRa node.
//!
//! - Takes in LoRa frames through the relay engine and shows the last received
//!   text and counters.
//! - Every few seconds, broadcasts a text heartbeat.
//! - Answers a ping with a unicast pong to the sender, whom the relay has
//!   learned from the ping itself.
//!
//! The node decides; the radio and the display belong to the firmware.

use crate::bounded::{text_fits, BoundedString, BoundedVec};
use crate::bridge::{body_of, display_text};
use crate::error::RelayError;
use crate::fragment::RejectReason;
use crate::fragment_laws::concat_payloads;
use crate::port::FrameAddr;
use crate::proto::{
    frame_bytes, law_frame_round_trip, parse_message, MessageView, MsgKind, ProtoError, Transport,
    BROADCAST_ADDR, DEFAULT_TTL, MAX_FRAME, MAX_PAYLOAD,
};
use crate::receivers::{law_observation, listed, row_of, via_of, with_observation};
use crate::relay::{
    frames_on, id_after, plan_views, Destination, IngestOutcome, IngestView, PlannedFrame,
    PlannedView, Relay, RelayView, MAX_PLANNED,
};
use crate::relay_laws::{
    goes_to, law_equal_frames, law_plan_carries_payload, law_plan_stays_on_targets, law_send_is_refused,
    law_send_reaches_every_target, law_send_uses_fresh_ids, law_targets, messages_on,
};
use crate::text::{
    decimal, law_decimal, law_text_round_trip, lemma_decimal_len, lemma_encode_concat,
    lemma_packed_concat, lemma_packed_whole, number_in, packed_onto, push_chars, push_decimal,
    text_of,
};
use vstd::prelude::*;
use vstd::utf8::{encode_utf8, is_ascii_chars, is_ascii_chars_encode_utf8};

verus! {

/// The node's synthetic 6-byte address (not a real MAC).
pub const NODE_ADDR: [u8; 6] = [0x02, 0x00, 0x00, 0x00, 0x00, 0x01];

/// Message id base so ids from this node don't collide with the terminal's.
pub const NODE_ID_BASE: u32 = 0x0100_0000;

/// Seconds between heartbeats.
pub const HEARTBEAT_SECS: u64 = 8;

/// The relay of the node: 8 tracked peers, 2 concurrent reassembly groups, 32
/// slices per group.
pub type NodeRelay = Relay<8, 2, 32>;

// ---------------------------------------------------------------------------
// What the node does
// ---------------------------------------------------------------------------

/// The state of the node.
#[verifier::ext_equal]
pub struct NodeView {
    pub relay: RelayView,
    /// How many frames were sent.
    pub tx: u32,
    /// How many messages were received.
    pub rx: u32,
    /// The last received text.
    pub last_rx: Seq<char>,
}

/// What came of a frame.
#[derive(Debug, Clone, Copy, PartialEq, Eq)]
pub enum NodeEvent {
    /// A message to show. If it was a ping, this is who to answer.
    Received(Option<[u8; 6]>),
    /// Nothing to show.
    Ignored,
    /// The reassembler dropped something.
    Dropped(RejectReason),
}

/// The frames of a plan that are for one transport.
pub open spec fn only_on(plan: Seq<PlannedView>, t: Transport) -> Seq<PlannedView>
    decreases plan.len(),
{
    if plan.len() == 0 {
        Seq::empty()
    } else {
        let front = only_on(plan.drop_last(), t);
        if plan.last().transport == t {
            front.push(plan.last())
        } else {
            front
        }
    }
}

/// The text of a heartbeat.
pub open spec fn heartbeat_text(tx: u32) -> Seq<char> {
    "node hb #"@ + decimal(tx as nat)
}

/// The line with the counters.
pub open spec fn counters_text(tx: u32, rx: u32) -> Seq<char> {
    "TX:"@ + decimal(tx as nat) + "  RX:"@ + decimal(rx as nat)
}

impl NodeView {
    /// The node after a frame arrived, and what came of it. A message is
    /// counted and shown, unless its text is too long to show.
    pub open spec fn after_frame(self, frame: Seq<u8>) -> (NodeView, Result<NodeEvent, RelayError>) {
        match self.relay.ingest_frame(Transport::Lora, frame, 8, 32) {
            (relay, Err(e)) => (NodeView { relay, ..self }, Err(e)),
            (relay, Ok(IngestView::Complete(m))) => (
                NodeView {
                    relay,
                    rx: self.rx.wrapping_add(1),
                    last_rx: if encode_utf8(body_of(m)).len() <= 48 {
                        body_of(m)
                    } else {
                        Seq::empty()
                    },
                    ..self
                },
                Ok(
                    NodeEvent::Received(
                        if m.kind == MsgKind::Ping {
                            Some(m.from)
                        } else {
                            None
                        },
                    ),
                ),
            ),
            (relay, Ok(IngestView::Dropped(reason))) => (
                NodeView { relay, ..self },
                Ok(NodeEvent::Dropped(reason)),
            ),
            (relay, Ok(_)) => (NodeView { relay, ..self }, Ok(NodeEvent::Ignored)),
        }
    }

    /// The node after a send was planned, and the frames for its radio.
    pub open spec fn send(self, kind: MsgKind, payload: Seq<u8>, dest: Destination) -> (
        NodeView,
        Result<Seq<PlannedView>, RelayError>,
    ) {
        match self.relay.send_plan(kind, payload, dest) {
            (relay, Ok(plan)) => (
                NodeView { relay, ..self },
                Ok(only_on(plan, Transport::Lora)),
            ),
            (relay, Err(e)) => (NodeView { relay, ..self }, Err(e)),
        }
    }

    /// The node after a pong was planned, and the frames for its radio: a
    /// unicast, or a broadcast if the peer is not known.
    pub open spec fn pong(self, peer: [u8; 6]) -> (NodeView, Result<Seq<PlannedView>, RelayError>) {
        let payload = encode_utf8("pong"@);
        match self.send(MsgKind::Pong, payload, Destination::Unicast(peer)) {
            (after, Err(RelayError::UnknownReceiver)) => after.send(
                MsgKind::Pong,
                payload,
                Destination::Broadcast,
            ),
            other => other,
        }
    }
}

// ---------------------------------------------------------------------------
// The node
// ---------------------------------------------------------------------------

/// The node: its relay, its counters, and the last text it received.
pub struct LoraNode {
    relay: NodeRelay,
    tx_counter: u32,
    rx_counter: u32,
    last_rx: BoundedString<48>,
}

impl View for LoraNode {
    type V = NodeView;

    closed spec fn view(&self) -> NodeView {
        NodeView {
            relay: self.relay@,
            tx: self.tx_counter,
            rx: self.rx_counter,
            last_rx: self.last_rx@,
        }
    }
}

/// A number behind a short text, in a string of 32 bytes.
proof fn lemma_number_fits(text: Seq<char>, n: u32)
    requires
        is_ascii_chars(text),
        text.len() <= 22,
    ensures
        packed_onto(text, decimal(n as nat), 32) == text + decimal(n as nat),
        encode_utf8(text + decimal(n as nat)).len() == text.len() + decimal(n as nat).len(),
{
    lemma_decimal_len(n as nat);
    is_ascii_chars_encode_utf8(text);
    is_ascii_chars_encode_utf8(decimal(n as nat));
    lemma_encode_concat(text, decimal(n as nat));
    lemma_packed_whole(text, decimal(n as nat), 32);
}

/// The texts of the node are ASCII.
proof fn lemma_node_texts()
    ensures
        is_ascii_chars("node hb #"@),
        "node hb #"@.len() == 9,
        is_ascii_chars("TX:"@),
        "TX:"@.len() == 3,
        is_ascii_chars("  RX:"@),
        "  RX:"@.len() == 5,
{
    reveal_strlit("node hb #");
    reveal_strlit("TX:");
    reveal_strlit("  RX:");
}

/// A short text is taken up as a whole by an empty string of 32 bytes.
proof fn lemma_short_text(text: Seq<char>)
    requires
        is_ascii_chars(text),
        text.len() <= 32,
    ensures
        packed_onto(Seq::empty(), text, 32) == text,
{
    is_ascii_chars_encode_utf8(text);
    assert(Seq::<char>::empty() + text =~= text);
    lemma_packed_whole(Seq::empty(), text, 32);
}

/// The line with the counters, for the display.
pub fn counters_line(tx: u32, rx: u32) -> (s: BoundedString<32>)
    ensures
        s@ == counters_text(tx, rx),
{
    let mut s: BoundedString<32> = BoundedString::new();
    push_chars(&mut s, "TX:");
    push_decimal(&mut s, tx);
    push_chars(&mut s, "  RX:");
    push_decimal(&mut s, rx);
    proof {
        lemma_node_texts();
        lemma_decimal_len(tx as nat);
        lemma_decimal_len(rx as nat);
        let (a, b, c, d) = ("TX:"@, decimal(tx as nat), "  RX:"@, decimal(rx as nat));
        let e = Seq::<char>::empty();
        lemma_packed_concat(e, a, b, 32);
        lemma_packed_concat(e, a + b, c, 32);
        lemma_packed_concat(e, a + b + c, d, 32);
        assert(is_ascii_chars(a + b + c + d));
        lemma_short_text(a + b + c + d);
    }
    s
}

/// Title of the node's display.
pub const TITLE: &'static str = "RelayStar node";

/// What the node's display shows: the title, two lines, and the counters.
pub struct StatusScreen {
    pub line1: &'static str,
    pub line2: BoundedString<48>,
    pub counters: BoundedString<32>,
}

/// Why a node cannot start.
#[derive(Debug, Clone, Copy, PartialEq, Eq, Structural)]
pub enum NodeFailure {
    /// The radio did not answer.
    Init,
    /// The radio rejected its parameters.
    Params,
}

/// A copy of a text that fits into 48 bytes.
fn line_text(text: &str) -> (t: BoundedString<48>)
    requires
        text_fits(text@, 48),
    ensures
        t@ == text@,
{
    let mut t: BoundedString<48> = BoundedString::new();
    assert(Seq::<char>::empty() + text@ =~= text@);
    let _ = t.push_str(text);
    t
}

impl StatusScreen {
    /// The screen of a node that cannot start.
    pub fn failure(reason: NodeFailure) -> (s: Self)
        ensures
            s.line1@ == match reason {
                NodeFailure::Init => "LoRa init FAILED"@,
                NodeFailure::Params => "LoRa params FAILED"@,
            },
            s.line2@ == Seq::<char>::empty(),
            s.counters@ == counters_text(0, 0),
    {
        let line1 = match reason {
            NodeFailure::Init => "LoRa init FAILED",
            NodeFailure::Params => "LoRa params FAILED",
        };
        StatusScreen { line1, line2: BoundedString::new(), counters: counters_line(0, 0) }
    }

    /// The texts on the screen, each with the height it stands at.
    pub fn rows(&self) -> (r: [(&str, i32); 4])
        ensures
            r@[0].0@ == TITLE@ && r@[0].1 == 0,
            r@[1].0@ == self.line1@ && r@[1].1 == 16,
            r@[2].0@ == self.line2@ && r@[2].1 == 28,
            r@[3].0@ == self.counters@ && r@[3].1 == 52,
    {
        [(TITLE, 0), (self.line1, 16), (self.line2.as_str(), 28), (self.counters.as_str(), 52)]
    }
}

impl LoraNode {
    /// The relay is well-formed.
    pub closed spec fn wf(&self) -> bool {
        self.relay.wf()
    }

    /// A node that has sent and received nothing. LoRa is its only transport.
    pub fn new() -> (n: Self)
        ensures
            n.wf(),
            n@.relay.self_addr == NODE_ADDR,
            n@.relay.next_id == NODE_ID_BASE,
            n@.relay.rows.len() == 0,
            n@.relay.seen.len() == 0,
            n@.relay.slots == Seq::new(2, |i: int| None::<crate::fragment::Group>),
            n@.relay.ports == Set::empty().insert(Transport::Lora),
            n@.tx == 0,
            n@.rx == 0,
            n@.last_rx == Seq::<char>::empty(),
    {
        let mut relay: NodeRelay = Relay::new(NODE_ADDR, NODE_ID_BASE);
        let _ = relay.register_port(Transport::Lora);
        LoraNode { relay, tx_counter: 0, rx_counter: 0, last_rx: BoundedString::new() }
    }

    /// How many frames were sent.
    pub fn tx_count(&self) -> (n: u32)
        ensures
            n == self@.tx,
    {
        self.tx_counter
    }

    /// How many messages were received.
    pub fn rx_count(&self) -> (n: u32)
        ensures
            n == self@.rx,
    {
        self.rx_counter
    }

    /// The last received text, for the display.
    pub fn last_text(&self) -> (s: &str)
        ensures
            s@ == self@.last_rx,
    {
        self.last_rx.as_str()
    }

    /// The line with the counters, for the display.
    pub fn counters(&self) -> (s: BoundedString<32>)
        ensures
            s@ == counters_text(self@.tx, self@.rx),
    {
        counters_line(self.tx_counter, self.rx_counter)
    }

    /// The screen at the start.
    pub fn ready_screen(&self) -> (s: StatusScreen)
        ensures
            s.line1@ == "LoRa node ready"@,
            s.line2@ == Seq::<char>::empty(),
            s.counters@ == counters_text(self@.tx, self@.rx),
    {
        StatusScreen {
            line1: "LoRa node ready",
            line2: BoundedString::new(),
            counters: self.counters(),
        }
    }

    /// The screen after a message was received.
    pub fn received_screen(&self) -> (s: StatusScreen)
        ensures
            s.line1@ == "RX <-"@,
            s.line2@ == self@.last_rx,
            s.counters@ == counters_text(self@.tx, self@.rx),
    {
        StatusScreen {
            line1: "RX <-",
            line2: self.last_rx.clone(),
            counters: self.counters(),
        }
    }

    /// The screen after a heartbeat was sent.
    pub fn sent_screen(&self, heartbeat: &BoundedString<32>) -> (s: StatusScreen)
        ensures
            s.line1@ == "TX ->"@,
            s.line2@ == heartbeat@,
            s.counters@ == counters_text(self@.tx, self@.rx),
    {
        StatusScreen {
            line1: "TX ->",
            line2: line_text(heartbeat.as_str()),
            counters: self.counters(),
        }
    }

    /// Take in a frame that the radio received.
    ///
    /// # Errors
    /// See [`Relay::ingest`].
    pub fn on_frame(&mut self, frame: &[u8]) -> (r: Result<NodeEvent, RelayError>)
        requires
            old(self).wf(),
        ensures
            final(self).wf(),
            (final(self)@, r) == old(self)@.after_frame(frame@),
    {
        let outcome = match self.relay.ingest(Transport::Lora, frame) {
            Ok(o) => o,
            Err(e) => return Err(e),
        };
        match outcome {
            IngestOutcome::Complete(msg) => {
                self.rx_counter = self.rx_counter.wrapping_add(1);
                let text = display_text(&msg);
                self.last_rx.clear();
                assert(Seq::<char>::empty() + text@ =~= text@);
                let _ = self.last_rx.push_str(text);
                if msg.kind == MsgKind::Ping {
                    Ok(NodeEvent::Received(Some(msg.from)))
                } else {
                    Ok(NodeEvent::Received(None))
                }
            },
            IngestOutcome::Dropped(reason) => Ok(NodeEvent::Dropped(reason)),
            IngestOutcome::NotForMe(_) | IngestOutcome::Buffered | IngestOutcome::Duplicate => Ok(
                NodeEvent::Ignored,
            ),
        }
    }

    /// Plan a send. Only the frames for the radio of this node are kept.
    ///
    /// # Errors
    /// See [`Relay::plan_send`].
    pub fn plan(&mut self, kind: MsgKind, payload: &[u8], dest: Destination) -> (r: Result<
        BoundedVec<PlannedFrame, MAX_PLANNED>,
        RelayError,
    >)
        requires
            old(self).wf(),
        ensures
            final(self).wf(),
            match old(self)@.send(kind, payload@, dest) {
                (after, Ok(frames)) => final(self)@ == after && r is Ok && plan_views(r->Ok_0@)
                    == frames,
                (after, Err(e)) => final(self)@ == after && r is Err && r->Err_0 == e,
            },
    {
        let plan = match self.relay.plan_send(kind, payload, dest) {
            Ok(p) => p,
            Err(e) => return Err(e),
        };
        let mut out: BoundedVec<PlannedFrame, MAX_PLANNED> = BoundedVec::new();
        let ghost all = plan_views(plan@);
        let count = plan.len();
        let mut i: usize = 0;
        assert(all.take(0) =~= Seq::empty());
        assert(plan_views(out@) =~= Seq::empty());
        while i < count
            invariant
                i <= count <= MAX_PLANNED,
                count == plan@.len(),
                all == plan_views(plan@),
                out@.len() <= i,
                plan_views(out@) == only_on(all.take(i as int), Transport::Lora),
            decreases count - i,
        {
            let frame = &plan.as_slice()[i];
            assert(all.take(i + 1).drop_last() =~= all.take(i as int));
            assert(all[i as int] == frame@);
            if frame.transport == Transport::Lora {
                let ghost so_far = out@;
                let copy = frame.clone();
                let _ = out.push(copy);
                assert(plan_views(out@) =~= plan_views(so_far).push(copy@));
            }
            i += 1;
        }
        assert(all.take(i as int) =~= all);
        Ok(out)
    }

    /// Plan the answer to a ping: a unicast pong, or a broadcast if the sender
    /// is not in the receiver table.
    ///
    /// # Errors
    /// See [`Relay::plan_send`].
    pub fn plan_pong(&mut self, peer: [u8; 6]) -> (r: Result<
        BoundedVec<PlannedFrame, MAX_PLANNED>,
        RelayError,
    >)
        requires
            old(self).wf(),
        ensures
            final(self).wf(),
            match old(self)@.pong(peer) {
                (after, Ok(frames)) => final(self)@ == after && r is Ok && plan_views(r->Ok_0@)
                    == frames,
                (after, Err(e)) => final(self)@ == after && r is Err && r->Err_0 == e,
            },
    {
        match self.plan(MsgKind::Pong, "pong".as_bytes(), Destination::Unicast(peer)) {
            Ok(frames) => Ok(frames),
            Err(RelayError::UnknownReceiver) => self.plan(
                MsgKind::Pong,
                "pong".as_bytes(),
                Destination::Broadcast,
            ),
            Err(e) => Err(e),
        }
    }

    /// The text of the next heartbeat, which says how many frames were sent.
    pub fn heartbeat(&self) -> (s: BoundedString<32>)
        ensures
            s@ == heartbeat_text(self@.tx),
    {
        let mut s: BoundedString<32> = BoundedString::new();
        push_chars(&mut s, "node hb #");
        push_decimal(&mut s, self.tx_counter);
        proof {
            lemma_node_texts();
            lemma_short_text("node hb #"@);
            lemma_number_fits("node hb #"@, self.tx_counter);
        }
        s
    }

    /// Count frames that the radio sent.
    pub fn sent(&mut self, frames: u32)
        requires
            old(self).wf(),
        ensures
            final(self).wf(),
            final(self)@ == (NodeView {
                tx: old(self)@.tx.wrapping_add(frames),
                ..old(self)@
            }),
    {
        self.tx_counter = self.tx_counter.wrapping_add(frames);
    }
}

// ---------------------------------------------------------------------------
// Sending a plan
// ---------------------------------------------------------------------------

/// The frames of a plan on their way out, one after the other. A frame that
/// the radio does not send is skipped.
pub struct Transmission {
    frames: BoundedVec<PlannedFrame, MAX_PLANNED>,
    next: usize,
    sent: u32,
}

/// The state of a transmission.
#[verifier::ext_equal]
pub struct TransmissionView {
    pub frames: Seq<PlannedView>,
    /// How many frames were tried.
    pub next: nat,
    /// How many of them were sent.
    pub sent: nat,
}

impl View for Transmission {
    type V = TransmissionView;

    closed spec fn view(&self) -> TransmissionView {
        TransmissionView {
            frames: plan_views(self.frames@),
            next: self.next as nat,
            sent: self.sent as nat,
        }
    }
}

/// How many of some attempts succeeded.
pub open spec fn successes(results: Seq<bool>) -> nat
    decreases results.len(),
{
    if results.len() == 0 {
        0
    } else {
        successes(results.drop_last()) + if results.last() {
            1nat
        } else {
            0
        }
    }
}

impl TransmissionView {
    /// The transmission after the next frame was tried.
    pub open spec fn after(self, ok: bool) -> TransmissionView {
        TransmissionView {
            next: self.next + 1,
            sent: self.sent + if ok {
                1nat
            } else {
                0
            },
            ..self
        }
    }

    /// The transmission after several frames were tried.
    pub open spec fn after_all(self, results: Seq<bool>) -> TransmissionView
        decreases results.len(),
    {
        if results.len() == 0 {
            self
        } else {
            self.after_all(results.drop_last()).after(results.last())
        }
    }
}

impl Transmission {
    /// No more frames were sent than tried, and no more tried than there are.
    pub closed spec fn wf(&self) -> bool {
        self.sent <= self.next <= self.frames@.len() <= MAX_PLANNED
    }

    /// A transmission of planned frames.
    pub fn new(frames: BoundedVec<PlannedFrame, MAX_PLANNED>) -> (t: Self)
        ensures
            t.wf(),
            t@ == (TransmissionView { frames: plan_views(frames@), next: 0, sent: 0 }),
    {
        let count = frames.len();
        assert(count <= MAX_PLANNED);
        Transmission { frames, next: 0, sent: 0 }
    }

    /// The next frame to send and how to address it, if there is one.
    pub fn next_frame(&self) -> (r: Option<(FrameAddr, BoundedVec<u8, MAX_FRAME>)>)
        requires
            self.wf(),
        ensures
            r is Some <==> self@.next < self@.frames.len(),
            r is Some ==> (r->0).0 == self@.frames[self@.next as int].addr && (r->0).1@
                == frame_bytes(self@.frames[self@.next as int].message),
    {
        if self.next >= self.frames.len() {
            return None;
        }
        let frame = &self.frames.as_slice()[self.next];
        assert(self@.frames[self.next as int] == frame@);
        Some((frame.addr, frame.message.to_frame()))
    }

    /// Go on to the next frame after the radio sent the last one, or did not.
    pub fn on_result(&mut self, ok: bool)
        requires
            old(self).wf(),
            old(self)@.next < old(self)@.frames.len(),
        ensures
            final(self).wf(),
            final(self)@ == old(self)@.after(ok),
    {
        self.next += 1;
        if ok {
            self.sent += 1;
        }
    }

    /// How many frames were sent.
    pub fn sent(&self) -> (n: u32)
        ensures
            n == self@.sent,
    {
        self.sent
    }
}

// ---------------------------------------------------------------------------
// Laws
// ---------------------------------------------------------------------------

/// The payload of a pong is short.
proof fn lemma_pong_payload()
    ensures
        encode_utf8("pong"@).len() == 4,
{
    reveal_strlit("pong");
    assert(is_ascii_chars("pong"@));
    is_ascii_chars_encode_utf8("pong"@);
}

/// A peer that is known on LoRa is reached there by a node whose only transport
/// that is.
proof fn lemma_reached_on_lora(v: RelayView, peer: [u8; 6])
    requires
        v.ports == Set::empty().insert(Transport::Lora),
        row_of(v.rows, peer) is Some,
        via_of(v.rows, peer).contains(Transport::Lora),
    ensures
        v.targets(Destination::Unicast(peer)) == Ok::<Seq<Transport>, RelayError>(
            seq![Transport::Lora],
        ),
{
    let ports = v.ports;
    assert(ports.contains(Transport::Lora));
    assert(via_of(v.rows, peer).intersect(ports) =~= ports);
    assert(listed(ports) =~= seq![Transport::Lora]);
}

/// A short payload to one transport goes out as one frame.
proof fn lemma_one_frame(v: RelayView, kind: MsgKind, payload: Seq<u8>, dest: Destination)
    requires
        v.targets(dest) == Ok::<Seq<Transport>, RelayError>(seq![Transport::Lora]),
        payload.len() <= 180,
    ensures
        v.send_plan(kind, payload, dest).1 == Ok::<Seq<PlannedView>, RelayError>(
            seq![
                PlannedView {
                    transport: Transport::Lora,
                    addr: dest.addr(),
                    message: v.outgoing(v.next_id, kind, payload, dest, Transport::Lora),
                },
            ],
        ),
{
    let targets = seq![Transport::Lora];
    let m = v.outgoing(v.next_id, kind, payload, dest, Transport::Lora);
    let frames = frames_on(m, Transport::Lora, id_after(v.next_id, 1), dest.addr());
    assert(frames =~= seq![
        PlannedView { transport: Transport::Lora, addr: dest.addr(), message: m },
    ]);
    reveal_with_fuel(RelayView::frames_to, 2);
    assert(targets[0] == Transport::Lora);
    assert(Seq::<PlannedView>::empty() + frames =~= frames);
}

/// The pong to a peer that is reached on LoRa is one frame to that peer.
proof fn lemma_pong(node: NodeView, peer: [u8; 6])
    requires
        node.relay.targets(Destination::Unicast(peer)) == Ok::<Seq<Transport>, RelayError>(
            seq![Transport::Lora],
        ),
    ensures
        node.pong(peer).1 == Ok::<Seq<PlannedView>, RelayError>(
            seq![pong_frame(node.relay, peer)],
        ),
{
    let payload = encode_utf8("pong"@);
    let dest = Destination::Unicast(peer);
    lemma_pong_payload();
    lemma_one_frame(node.relay, MsgKind::Pong, payload, dest);
    let plan = seq![pong_frame(node.relay, peer)];
    reveal_with_fuel(only_on, 2);
    assert(plan.drop_last() =~= Seq::empty());
    assert(only_on(plan, Transport::Lora) =~= plan);
}

/// The frame that answers a ping from `peer`: a pong with the next free id, to
/// that peer alone, on LoRa.
pub open spec fn pong_frame(v: RelayView, peer: [u8; 6]) -> PlannedView {
    let dest = Destination::Unicast(peer);
    PlannedView {
        transport: Transport::Lora,
        addr: FrameAddr::Unicast(peer),
        message: v.outgoing(
            v.next_id,
            MsgKind::Pong,
            encode_utf8("pong"@),
            dest,
            Transport::Lora,
        ),
    }
}

/// What a ping in one frame leads to: it is counted, its sender is known on
/// LoRa, and the transports do not change.
proof fn lemma_ping_arrives(node: NodeView, m: MessageView)
    requires
        node.relay.valid(8, 2, 32),
        m.valid(),
        m.frag is None,
        m.kind == MsgKind::Ping,
        m.to == node.relay.self_addr || m.to == BROADCAST_ADDR,
        m.from != node.relay.self_addr,
        m.from != BROADCAST_ADDR,
        !node.relay.seen.contains(m.id),
        with_observation(node.relay.rows, m.from, Transport::Lora, 8) is Some,
    ensures
        ({
            let (after, event) = node.after_frame(frame_bytes(m));
            &&& event == Ok::<NodeEvent, RelayError>(NodeEvent::Received(Some(m.from)))
            &&& after.rx == node.rx.wrapping_add(1)
            &&& after.relay.ports == node.relay.ports
            &&& row_of(after.relay.rows, m.from) is Some
            &&& via_of(after.relay.rows, m.from).contains(Transport::Lora)
        }),
{
    law_frame_round_trip(m);
    law_observation(node.relay.rows, m.from, Transport::Lora, 8, m.from);
    let (after, _) = node.after_frame(frame_bytes(m));
    let via = via_of(after.relay.rows, m.from);
    assert(via.contains(Transport::Lora));
    assert(!Set::<Transport>::empty().contains(Transport::Lora));
}

/// A ping from a stranger, to this node or to every node, is answered to that
/// stranger alone: taking the ping in has made it known, if the receiver table
/// has room, so that the pong is a unicast to it on LoRa.
pub proof fn law_pong_goes_to_sender(node: NodeView, m: MessageView)
    requires
        node.relay.valid(8, 2, 32),
        node.relay.ports == Set::empty().insert(Transport::Lora),
        m.valid(),
        m.frag is None,
        m.kind == MsgKind::Ping,
        m.to == node.relay.self_addr || m.to == BROADCAST_ADDR,
        m.from != node.relay.self_addr,
        m.from != BROADCAST_ADDR,
        !node.relay.seen.contains(m.id),
        with_observation(node.relay.rows, m.from, Transport::Lora, 8) is Some,
    ensures
        ({
            let (after, event) = node.after_frame(frame_bytes(m));
            &&& event == Ok::<NodeEvent, RelayError>(NodeEvent::Received(Some(m.from)))
            &&& after.rx == node.rx.wrapping_add(1)
            &&& after.pong(m.from).1 == Ok::<Seq<PlannedView>, RelayError>(
                seq![pong_frame(after.relay, m.from)],
            )
        }),
{
    lemma_ping_arrives(node, m);
    let (after, _) = node.after_frame(frame_bytes(m));
    lemma_reached_on_lora(after.relay, m.from);
    lemma_pong(after, m.from);
}

/// A transmission tries the frames in order and counts exactly those that were
/// sent.
pub proof fn law_transmission_counts(t: TransmissionView, results: Seq<bool>)
    ensures
        t.after_all(results).frames == t.frames,
        t.after_all(results).next == t.next + results.len(),
        t.after_all(results).sent == t.sent + successes(results),
    decreases results.len(),
{
    if results.len() > 0 {
        law_transmission_counts(t, results.drop_last());
    }
}

// ---------------------------------------------------------------------------
// What arrives
// ---------------------------------------------------------------------------

/// A whole message in one frame that was not seen before. One for this node or
/// for every node is counted, and shown if its text is short enough; if it is a
/// ping its sender is to be answered, and otherwise nobody is. One for another
/// node is ignored.
pub proof fn law_new_message(node: NodeView, m: MessageView)
    requires
        m.valid(),
        m.frag is None,
        !node.relay.seen.contains(m.id),
    ensures
        ({
            let (after, event) = node.after_frame(frame_bytes(m));
            let mine = m.to == node.relay.self_addr || m.to == BROADCAST_ADDR;
            &&& !mine ==> event == Ok::<NodeEvent, RelayError>(NodeEvent::Ignored)
            &&& mine && m.kind == MsgKind::Ping ==> event == Ok::<NodeEvent, RelayError>(
                NodeEvent::Received(Some(m.from)),
            )
            &&& mine && m.kind != MsgKind::Ping ==> event == Ok::<NodeEvent, RelayError>(
                NodeEvent::Received(None),
            )
            &&& after.tx == node.tx
            &&& !mine ==> after.rx == node.rx && after.last_rx == node.last_rx
            &&& mine && node.rx < u32::MAX ==> after.rx == node.rx + 1
            &&& mine && node.rx == u32::MAX ==> after.rx == 0
            &&& mine ==> forall|text: Seq<char>|
                m.payload == #[trigger] encode_utf8(text) ==> after.last_rx == if m.payload.len()
                    <= 48 {
                    text
                } else {
                    Seq::empty()
                }
        }),
{
    law_frame_round_trip(m);
    assert forall|text: Seq<char>| m.payload == #[trigger] encode_utf8(text) implies body_of(m)
        == text by {
        law_text_round_trip(text, m.payload);
    }
}

/// What came of a frame, by what the relay makes of it: nobody but the sender
/// of a completed ping is to be answered, whether the ping came in one frame or
/// in slices; nothing but a completed message is counted or shown; what the
/// relay drops or refuses is reported.
pub proof fn law_events(node: NodeView, frame: Seq<u8>)
    ensures
        ({
            let (relay, outcome) = node.relay.ingest_frame(Transport::Lora, frame, 8, 32);
            let (after, event) = node.after_frame(frame);
            &&& after.relay == relay
            &&& after.tx == node.tx
            &&& event matches Ok(NodeEvent::Received(answer)) ==> {
                &&& outcome matches Ok(IngestView::Complete(m))
                &&& answer is Some <==> m.kind == MsgKind::Ping
                &&& answer is Some ==> answer->0 == m.from
            }
            &&& !(event matches Ok(NodeEvent::Received(_))) ==> after.rx == node.rx
                && after.last_rx == node.last_rx
            &&& match outcome {
                Ok(IngestView::Complete(m)) => {
                    &&& event matches Ok(NodeEvent::Received(_))
                    &&& after.rx == if node.rx == u32::MAX {
                        0
                    } else {
                        node.rx + 1
                    }
                    &&& forall|text: Seq<char>|
                        m.payload == #[trigger] encode_utf8(text) ==> after.last_rx
                            == if m.payload.len() <= 48 {
                            text
                        } else {
                            Seq::empty()
                        }
                },
                Ok(IngestView::Dropped(reason)) => event == Ok::<NodeEvent, RelayError>(
                    NodeEvent::Dropped(reason),
                ),
                Ok(_) => event == Ok::<NodeEvent, RelayError>(NodeEvent::Ignored),
                Err(e) => event == Err::<NodeEvent, RelayError>(e),
            }
        }),
{
    if let Ok(IngestView::Complete(m)) = node.relay.ingest_frame(Transport::Lora, frame, 8, 32).1 {
        assert forall|text: Seq<char>| m.payload == #[trigger] encode_utf8(text) implies body_of(m)
            == text by {
            law_text_round_trip(text, m.payload);
        }
    }
}

/// A message that is no text is shown by a placeholder.
pub proof fn law_binary_message(node: NodeView, m: MessageView)
    requires
        m.valid(),
        m.frag is None,
        !node.relay.seen.contains(m.id),
        m.to == node.relay.self_addr || m.to == BROADCAST_ADDR,
        forall|text: Seq<char>| m.payload != #[trigger] encode_utf8(text),
    ensures
        node.after_frame(frame_bytes(m)).0.last_rx == "<binary>"@,
{
    law_frame_round_trip(m);
    if let Some(text) = text_of(m.payload) {
        law_text_round_trip(text, m.payload);
        assert(m.payload == encode_utf8(text));
    }
    reveal_strlit("<binary>");
    assert(is_ascii_chars("<binary>"@));
    is_ascii_chars_encode_utf8("<binary>"@);
}

// ---------------------------------------------------------------------------
// What is sent
// ---------------------------------------------------------------------------

/// The messages of the frames for one transport.
proof fn lemma_only_on(plan: Seq<PlannedView>, t: Transport)
    ensures
        only_on(plan, t).len() == messages_on(plan, t).len(),
        forall|i: int|
            0 <= i < only_on(plan, t).len() ==> (#[trigger] only_on(plan, t)[i]).transport == t
                && only_on(plan, t)[i].message == messages_on(plan, t)[i] && plan.contains(
                only_on(plan, t)[i],
            ),
    decreases plan.len(),
{
    if plan.len() > 0 {
        let front = plan.drop_last();
        lemma_only_on(front, t);
        assert forall|i: int| 0 <= i < only_on(plan, t).len() implies (
        #[trigger] only_on(plan, t)[i]).transport == t && only_on(plan, t)[i].message
            == messages_on(plan, t)[i] && plan.contains(only_on(plan, t)[i]) by {
            let frame = only_on(plan, t)[i];
            if i < only_on(front, t).len() {
                assert(frame == only_on(front, t)[i]);
                let at = choose|at: int| 0 <= at < front.len() && front[at] == frame;
                assert(plan[at] == frame);
            } else {
                assert(frame == plan[plan.len() - 1]);
            }
        }
    }
}

/// The messages in planned frames.
pub open spec fn messages_in(frames: Seq<PlannedView>) -> Seq<MessageView> {
    Seq::new(frames.len(), |i: int| frames[i].message)
}

/// What a node sends goes over its radio and nowhere else: in frames that fit,
/// that join to the payload, from this node to the destination, under the next
/// id. A payload that is too large for a message is refused, and so is a
/// destination that is not known. Sending alone counts nothing.
pub proof fn law_node_send(node: NodeView, kind: MsgKind, payload: Seq<u8>, dest: Destination)
    requires
        node.relay.ports == Set::empty().insert(Transport::Lora),
    ensures
        ({
            let (after, plan) = node.send(kind, payload, dest);
            let lora = Transport::Lora;
            &&& after == (NodeView { relay: after.relay, ..node })
            &&& after.relay == (RelayView { next_id: after.relay.next_id, ..node.relay })
            &&& !goes_to(node.relay, dest, lora) ==> after == node && plan == Err::<
                Seq<PlannedView>,
                RelayError,
            >(
                if row_of(node.relay.rows, dest.to()) is None {
                    RelayError::UnknownReceiver
                } else {
                    RelayError::NoSuchPort
                },
            )
            &&& goes_to(node.relay, dest, lora) && payload.len() > MAX_PAYLOAD ==> plan == Err::<
                Seq<PlannedView>,
                RelayError,
            >(RelayError::Protocol(ProtoError::PayloadTooLarge))
            &&& goes_to(node.relay, dest, lora) && payload.len() <= MAX_PAYLOAD ==> {
                &&& plan is Ok
                &&& plan->Ok_0.len() > 0
                &&& concat_payloads(messages_in(plan->Ok_0)) == payload
                &&& after.relay.next_id != node.relay.next_id
                &&& forall|i: int|
                    0 <= i < plan->Ok_0.len() ==> {
                        let frame = #[trigger] plan->Ok_0[i];
                        &&& frame.transport == lora
                        &&& frame.addr == match dest {
                            Destination::Unicast(a) => FrameAddr::Unicast(a),
                            Destination::Broadcast => FrameAddr::Broadcast,
                        }
                        &&& frame.message.payload.len() <= lora.max_payload_spec()
                        &&& frame.message.id == node.relay.next_id
                        &&& frame.message.ttl == DEFAULT_TTL
                        &&& frame.message.origin == lora
                        &&& frame.message.from == node.relay.self_addr
                        &&& frame.message.kind == kind
                        &&& frame.message.to == match dest {
                            Destination::Unicast(a) => a,
                            Destination::Broadcast => BROADCAST_ADDR,
                        }
                    }
            }
        }),
{
    let v = node.relay;
    let lora = Transport::Lora;
    assert forall|t: Transport| #[trigger] goes_to(v, dest, t) implies t == lora by {}
    assert(v.ports.contains(lora));
    if goes_to(v, dest, lora) {
        law_send_reaches_every_target(v, kind, payload, dest, lora);
        law_targets(v, dest, lora);
        if payload.len() <= MAX_PAYLOAD {
            let plan = v.send_plan(kind, payload, dest).1->Ok_0;
            law_plan_carries_payload(v, kind, payload, dest, lora);
            lemma_only_on(plan, lora);
            let frames = only_on(plan, lora);
            assert(messages_in(frames) =~= messages_on(plan, lora));
            assert forall|i: int| 0 <= i < frames.len() implies (#[trigger] frames[i]).addr
                == dest.addr() by {
                let at = choose|at: int| 0 <= at < plan.len() && plan[at] == frames[i];
                law_plan_stays_on_targets(v, kind, payload, dest, at);
            }
            law_send_uses_fresh_ids(v, kind, payload, dest, 0, 0);
        }
    } else {
        law_send_is_refused(v, kind, payload, dest);
    }
}

/// A pong goes to a peer that is known on LoRa, alone. The pong for a peer that
/// is not known at all goes to every node.
pub proof fn law_pong(node: NodeView, peer: [u8; 6])
    requires
        node.relay.ports == Set::empty().insert(Transport::Lora),
        via_of(node.relay.rows, peer).contains(Transport::Lora) || row_of(
            node.relay.rows,
            peer,
        ) is None,
    ensures
        ({
            let plan = node.pong(peer).1;
            let known = row_of(node.relay.rows, peer) is Some;
            &&& plan is Ok
            &&& plan->Ok_0.len() > 0
            &&& concat_payloads(messages_in(plan->Ok_0)) == encode_utf8("pong"@)
            &&& forall|i: int|
                0 <= i < plan->Ok_0.len() ==> {
                    let frame = #[trigger] plan->Ok_0[i];
                    &&& frame.transport == Transport::Lora
                    &&& frame.message.kind == MsgKind::Pong
                    &&& frame.message.from == node.relay.self_addr
                    &&& known ==> frame.addr == FrameAddr::Unicast(peer) && frame.message.to
                        == peer
                    &&& !known ==> frame.addr == FrameAddr::Broadcast && frame.message.to
                        == BROADCAST_ADDR
                }
        }),
{
    let payload = encode_utf8("pong"@);
    lemma_pong_payload();
    law_node_send(node, MsgKind::Pong, payload, Destination::Unicast(peer));
    law_node_send(node, MsgKind::Pong, payload, Destination::Broadcast);
    assert(goes_to(node.relay, Destination::Broadcast, Transport::Lora));
}

/// A heartbeat says how many frames were sent, and the line with the counters
/// says how many were sent and received.
pub proof fn law_counts_are_told(tx: u32, rx: u32)
    ensures
        ({
            let (beat, line) = (heartbeat_text(tx), counters_text(tx, rx));
            let (sent, received) = (decimal(tx as nat), decimal(rx as nat));
            &&& beat.take(9) == "node hb #"@
            &&& number_in(beat.skip(9)) == tx
            &&& line.take(3) == "TX:"@
            &&& exists|at: int|
                3 < at < line.len() - 5 && number_in(#[trigger] line.subrange(3, at)) == tx
                    && line.subrange(at, at + 5) == "  RX:"@ && number_in(line.skip(at + 5)) == rx
        }),
{
    lemma_node_texts();
    law_decimal(tx as nat);
    law_decimal(rx as nat);
    let (beat, line) = (heartbeat_text(tx), counters_text(tx, rx));
    let (sent, received) = (decimal(tx as nat), decimal(rx as nat));
    assert(beat.take(9) =~= "node hb #"@);
    assert(beat.skip(9) =~= sent);
    assert(line.take(3) =~= "TX:"@);
    let at = 3 + sent.len() as int;
    assert(line.subrange(3, at) =~= sent);
    assert(line.subrange(at, at + 5) =~= "  RX:"@);
    assert(line.skip(at + 5) =~= received);
}

/// Frames that hold the same message do the same.
pub proof fn law_equal_frames_do_the_same(node: NodeView, frame: Seq<u8>, m: MessageView)
    requires
        parse_message(frame) == Some(m),
    ensures
        node.after_frame(frame) == node.after_frame(frame_bytes(m)),
{
    law_equal_frames(node.relay, Transport::Lora, frame, m, 8, 32);
}

/// A pong is refused, and nothing changes, for a peer that is known but not on
/// any transport of the node, and where the node has no transport at all.
pub proof fn law_pong_is_refused(node: NodeView, peer: [u8; 6])
    requires
        row_of(node.relay.rows, peer) is Some || forall|t: Transport| !node.relay.ports.contains(t),
        forall|t: Transport|
            node.relay.ports.contains(t) ==> !via_of(node.relay.rows, peer).contains(t),
    ensures
        node.pong(peer).0 == node,
        node.pong(peer).1 == Err::<Seq<PlannedView>, RelayError>(
            if forall|t: Transport| !node.relay.ports.contains(t) {
                RelayError::NoPortsRegistered
            } else {
                RelayError::NoSuchPort
            },
        ),
{
    let dest = Destination::Unicast(peer);
    assert forall|t: Transport| !#[trigger] goes_to(node.relay, dest, t) by {}
    law_send_is_refused(node.relay, MsgKind::Pong, encode_utf8("pong"@), dest);
}

} // verus!
