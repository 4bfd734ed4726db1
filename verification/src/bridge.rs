//! Central message routing of the Cardputer terminal.
//!
//! Frames that arrive over a transport go through the relay engine. Complete
//! messages are shown on the display; broadcasts, and messages for other
//! nodes, are forwarded to every transport but the one they came from. Text
//! that is composed locally is broadcast on every transport.
//!
//! The bridge decides; the queues between it and the transports, the display
//! and the keyboard belong to the firmware.

use crate::bounded::{BoundedString, BoundedVec};
use crate::error::RelayError;
use crate::fragment::{
    is_free, reassemble, slice_limit, slot_for, tracks, valid_slots, Group, RejectReason,
};
use crate::fragment_laws::{concat_payloads, law_split_preserves_payload};
use crate::port::FrameAddr;
use crate::proto::{
    frame_bytes, law_frame_round_trip, parse_message, Fragment, Message, MessageView, MsgKind,
    Transport, BROADCAST_ADDR, MAX_FRAME,
};
use crate::relay::{
    append_plan, as_planned, dedup_key, plan_views, Destination, IngestOutcome, IngestView,
    PlannedFrame, PlannedView, Relay, RelayView, MAX_PLANNED, SEEN_CAPACITY,
};
use crate::relay_laws::{
    law_forward_spends_a_hop, law_forward_uses_fresh_id, law_ids_taken, lemma_messages_of_block,
    lemma_messages_on_concat, lemma_messages_on_none, lemma_recent_ages, lemma_split_works,
    messages_on, recent, transport_rank,
};
use crate::search::{first_index, is_first, lemma_first_exists};
use crate::text::{first_chars, packed, push_first_chars, text_of};
use vstd::prelude::*;
use vstd::set_lib::set_int_range;
use vstd::utf8::encode_utf8;

verus! {

/// This terminal's synthetic 6-byte address (not a real MAC).
pub const CARD_ADDR: [u8; 6] = [0x02, 0x00, 0x00, 0x00, 0x00, 0x02];

/// Message-id base so the terminal's ids don't collide with the LoRa node's.
pub const CARD_ID_BASE: u32 = 0x0200_0000;

/// The relay of the terminal: 16 tracked peers, 4 concurrent reassembly
/// groups, 32 slices per group.
pub type CardRelay = Relay<16, 4, 32>;

// ---------------------------------------------------------------------------
// Lines and frames
// ---------------------------------------------------------------------------

/// The text of a message for people to read.
pub open spec fn body_of(m: MessageView) -> Seq<char> {
    match text_of(m.payload) {
        Some(text) => text,
        None => "<binary>"@,
    }
}

/// The text of a message for people to read: its payload if that is text,
/// otherwise a placeholder.
pub fn display_text(msg: &Message) -> (s: &str)
    ensures
        s@ == body_of(msg@),
{
    match msg.as_text() {
        Some(text) => text,
        None => "<binary>",
    }
}

/// A line to render on the display log.
pub struct DisplayLine {
    pub origin: Transport,
    pub text: BoundedString<48>,
}

impl Clone for DisplayLine {
    fn clone(&self) -> (r: Self)
        ensures
            r@ == self@,
    {
        DisplayLine { origin: self.origin, text: self.text.clone() }
    }
}

/// What a line says.
#[verifier::ext_equal]
pub struct LineView {
    pub origin: Transport,
    pub text: Seq<char>,
}

impl View for DisplayLine {
    type V = LineView;

    open spec fn view(&self) -> LineView {
        LineView { origin: self.origin, text: self.text@ }
    }
}

/// The line that shows a message: where it entered the mesh and as much of its first
/// 47 characters as 48 bytes can hold.
pub open spec fn line_of(m: MessageView) -> LineView {
    LineView { origin: m.origin, text: packed(first_chars(body_of(m), 47), 48) }
}

impl DisplayLine {
    /// The line that shows a message.
    pub fn from_message(msg: &Message) -> (line: Self)
        ensures
            line@ == line_of(msg@),
    {
        let mut text: BoundedString<48> = BoundedString::new();
        push_first_chars(&mut text, display_text(msg), 47);
        DisplayLine { origin: msg.origin, text }
    }
}

/// One frame for a transport's transmitter: how to address it, and what to
/// encode and send.
pub type OutFrame = (FrameAddr, Message);

/// A newly-received frame from a transport, still in raw wire form.
pub struct RawFrame {
    pub source: Transport,
    pub bytes: BoundedVec<u8, MAX_FRAME>,
}

impl Clone for RawFrame {
    fn clone(&self) -> (r: Self)
        ensures
            r.source == self.source,
            r.bytes@ == self.bytes@,
    {
        RawFrame { source: self.source, bytes: self.bytes.clone() }
    }
}

impl RawFrame {
    /// The bytes that arrived over `source`, if they are no more than a frame
    /// can have.
    pub fn new(source: Transport, data: &[u8]) -> (r: Option<RawFrame>)
        ensures
            r is Some <==> data@.len() <= MAX_FRAME,
            r is Some ==> r->0.source == source && r->0.bytes@ == data@,
    {
        match BoundedVec::from_slice(data) {
            Ok(bytes) => Some(RawFrame { source, bytes }),
            Err(_) => None,
        }
    }
}

// ---------------------------------------------------------------------------
// Routing
// ---------------------------------------------------------------------------

/// What is to be done about a frame or a text: a line to show, frames to queue
/// for their transports, and the reason if the reassembler dropped something.
pub struct Routing {
    pub line: Option<DisplayLine>,
    pub frames: BoundedVec<PlannedFrame, MAX_PLANNED>,
    pub dropped: Option<RejectReason>,
}

/// What a routing says.
#[verifier::ext_equal]
pub struct RoutingView {
    pub line: Option<LineView>,
    pub frames: Seq<PlannedView>,
    pub dropped: Option<RejectReason>,
}

impl View for Routing {
    type V = RoutingView;

    open spec fn view(&self) -> RoutingView {
        RoutingView {
            line: match self.line {
                Some(line) => Some(line@),
                None => None,
            },
            frames: plan_views(self.frames@),
            dropped: self.dropped,
        }
    }
}

/// Nothing to be done.
pub open spec fn no_routing() -> RoutingView {
    RoutingView { line: None, frames: Seq::empty(), dropped: None }
}

/// Forwarding `m` onto `target`, unless that is the transport to skip.
pub open spec fn forward_unless(v: RelayView, m: MessageView, target: Transport, skip: Transport) -> (
    RelayView,
    Seq<PlannedView>,
) {
    if target == skip {
        (v, Seq::empty())
    } else {
        match v.forward_plan(m, target) {
            (after, Ok(frames)) => (after, frames),
            (after, Err(_)) => (after, Seq::empty()),
        }
    }
}

/// Forwarding `m` to every transport except `skip`.
pub open spec fn fanout(v: RelayView, m: MessageView, skip: Transport) -> (
    RelayView,
    Seq<PlannedView>,
) {
    let (v1, lora) = forward_unless(v, m, Transport::Lora, skip);
    let (v2, mqtt) = forward_unless(v1, m, Transport::Mqtt, skip);
    let (v3, espnow) = forward_unless(v2, m, Transport::EspNow, skip);
    (v3, lora + mqtt + espnow)
}

/// What the bridge does about the outcome of an inbound frame: a complete
/// message is shown, and it is forwarded if it is for every node; a message
/// for another node is forwarded.
pub open spec fn route(v: RelayView, outcome: IngestView, source: Transport) -> (
    RelayView,
    RoutingView,
) {
    match outcome {
        IngestView::Complete(m) => {
            let shown = RoutingView { line: Some(line_of(m)), ..no_routing() };
            if m.to == BROADCAST_ADDR {
                let (after, frames) = fanout(v, m, source);
                (after, RoutingView { frames, ..shown })
            } else {
                (v, shown)
            }
        },
        IngestView::NotForMe(m) => {
            let (after, frames) = fanout(v, m, source);
            (after, RoutingView { frames, ..no_routing() })
        },
        IngestView::Dropped(reason) => (
            v,
            RoutingView { dropped: Some(reason), ..no_routing() },
        ),
        _ => (v, no_routing()),
    }
}

/// What the bridge does about a frame that arrived over `source`.
pub open spec fn route_frame(v: RelayView, source: Transport, frame: Seq<u8>) -> (
    RelayView,
    Result<RoutingView, RelayError>,
) {
    match v.ingest_frame(source, frame, 16, 32) {
        (after, Err(e)) => (after, Err(e)),
        (after, Ok(outcome)) => {
            let (last, routing) = route(after, outcome, source);
            (last, Ok(routing))
        },
    }
}

/// What the bridge does about a text that was composed locally: broadcast it,
/// and show the first frame of it.
pub open spec fn route_text(v: RelayView, text: Seq<char>) -> (
    RelayView,
    Result<RoutingView, RelayError>,
) {
    match v.send_plan(MsgKind::Text, encode_utf8(text), Destination::Broadcast) {
        (after, Err(e)) => (after, Err(e)),
        (after, Ok(frames)) => (
            after,
            Ok(
                RoutingView {
                    line: if frames.len() > 0 {
                        Some(line_of(frames[0].message))
                    } else {
                        None
                    },
                    frames,
                    dropped: None,
                },
            ),
        ),
    }
}

/// The router of the terminal. Its view is the state of its relay.
pub struct Bridge {
    relay: CardRelay,
}

impl View for Bridge {
    type V = RelayView;

    closed spec fn view(&self) -> RelayView {
        self.relay@
    }
}

impl Bridge {
    /// The relay is well-formed.
    pub closed spec fn wf(&self) -> bool {
        self.relay.wf()
    }

    /// A bridge with no transports yet.
    pub fn new() -> (b: Self)
        ensures
            b.wf(),
            b@.self_addr == CARD_ADDR,
            b@.next_id == CARD_ID_BASE,
            b@.rows.len() == 0,
            b@.seen.len() == 0,
            b@.ports == Set::<Transport>::empty(),
            b@.slots == Seq::new(4, |i: int| None::<Group>),
    {
        Bridge { relay: Relay::new(CARD_ADDR, CARD_ID_BASE) }
    }

    /// Advertise the three transports, so that broadcasts go out on all of
    /// them.
    pub fn advertise(&mut self)
        requires
            old(self).wf(),
        ensures
            final(self).wf(),
            final(self)@ == (RelayView {
                ports: old(self)@.ports.insert(Transport::Lora).insert(Transport::EspNow).insert(
                    Transport::Mqtt,
                ),
                ..old(self)@
            }),
    {
        let _ = self.relay.register_port(Transport::Lora);
        let _ = self.relay.register_port(Transport::EspNow);
        let _ = self.relay.register_port(Transport::Mqtt);
    }

    /// Allocate a fresh message id.
    pub fn next_id(&mut self) -> (id: u32)
        requires
            old(self).wf(),
        ensures
            final(self).wf(),
            id == old(self)@.next_id,
            final(self)@ == old(self)@.ids_taken(1),
    {
        self.relay.next_id()
    }

    /// Broadcast a locally-composed text. It is also shown, so that the user
    /// sees their own text.
    pub fn send_local_text(&mut self, text: &str) -> (r: Result<Routing, RelayError>)
        requires
            old(self).wf(),
        ensures
            final(self).wf(),
            match route_text(old(self)@, text@) {
                (after, Ok(routing)) => final(self)@ == after && r is Ok && r->Ok_0@ == routing,
                (after, Err(e)) => final(self)@ == after && r is Err && r->Err_0 == e,
            },
    {
        let frames = match self.relay.plan_send(
            MsgKind::Text,
            text.as_bytes(),
            Destination::Broadcast,
        ) {
            Ok(frames) => frames,
            Err(e) => return Err(e),
        };
        let line = if frames.is_empty() {
            None
        } else {
            let first = &frames.as_slice()[0];
            assert(plan_views(frames@)[0] == first@);
            Some(DisplayLine::from_message(&first.message))
        };
        Ok(Routing { line, frames, dropped: None })
    }

    /// Decide what to do about an inbound frame.
    pub fn on_frame(&mut self, raw: &RawFrame) -> (r: Result<Routing, RelayError>)
        requires
            old(self).wf(),
        ensures
            final(self).wf(),
            match route_frame(old(self)@, raw.source, raw.bytes@) {
                (after, Ok(routing)) => final(self)@ == after && r is Ok && r->Ok_0@ == routing,
                (after, Err(e)) => final(self)@ == after && r is Err && r->Err_0 == e,
            },
    {
        let outcome = match self.relay.ingest(raw.source, raw.bytes.as_slice()) {
            Ok(o) => o,
            Err(e) => return Err(e),
        };
        let mut routing = Routing { line: None, frames: BoundedVec::new(), dropped: None };
        assert(routing@.frames =~= Seq::empty());
        match outcome {
            IngestOutcome::Complete(msg) => {
                routing.line = Some(DisplayLine::from_message(&msg));
                if msg.is_broadcast() {
                    routing.frames = self.fanout_forward(&msg, raw.source);
                }
            },
            IngestOutcome::NotForMe(msg) => {
                routing.frames = self.fanout_forward(&msg, raw.source);
            },
            IngestOutcome::Buffered | IngestOutcome::Duplicate => {},
            IngestOutcome::Dropped(reason) => {
                routing.dropped = Some(reason);
            },
        }
        Ok(routing)
    }

    /// Forward `msg` to every transport except `skip`.
    fn fanout_forward(&mut self, msg: &Message, skip: Transport) -> (out: BoundedVec<
        PlannedFrame,
        MAX_PLANNED,
    >)
        requires
            old(self).wf(),
        ensures
            final(self).wf(),
            (final(self)@, plan_views(out@)) == fanout(old(self)@, msg@, skip),
    {
        let mut out: BoundedVec<PlannedFrame, MAX_PLANNED> = BoundedVec::new();
        assert(plan_views(out@) =~= Seq::empty());
        self.forward_unless(msg, Transport::Lora, skip, &mut out);
        self.forward_unless(msg, Transport::Mqtt, skip, &mut out);
        self.forward_unless(msg, Transport::EspNow, skip, &mut out);
        assert(plan_views(out@) =~= fanout(old(self)@, msg@, skip).1);
        out
    }

    /// Forward `msg` onto `target`, unless that is the transport to skip.
    fn forward_unless(
        &mut self,
        msg: &Message,
        target: Transport,
        skip: Transport,
        out: &mut BoundedVec<PlannedFrame, MAX_PLANNED>,
    )
        requires
            old(self).wf(),
            old(out)@.len() + 32 <= MAX_PLANNED,
        ensures
            final(self).wf(),
            final(self)@ == forward_unless(old(self)@, msg@, target, skip).0,
            plan_views(final(out)@) == plan_views(old(out)@) + forward_unless(
                old(self)@,
                msg@,
                target,
                skip,
            ).1,
            final(out)@.len() <= old(out)@.len() + 32,
    {
        if target == skip {
            assert(plan_views(out@) + Seq::empty() =~= plan_views(out@));
            return;
        }
        match self.relay.plan_forward(msg.clone(), target) {
            Ok(frames) => append_plan(&frames, out),
            Err(_) => {
                assert(plan_views(out@) + Seq::empty() =~= plan_views(out@));
            },
        }
    }
}

// ---------------------------------------------------------------------------
// Laws
// ---------------------------------------------------------------------------

/// Forwarding never goes back to where a message came from, and every frame
/// of it has one hop less. A message without hops left goes nowhere; any other
/// reaches each of the other transports in full.
pub proof fn law_fanout(v: RelayView, m: MessageView, skip: Transport, t: Transport)
    requires
        m.valid(),
    ensures
        ({
            let plan = fanout(v, m, skip).1;
            &&& forall|i: int|
                0 <= i < plan.len() ==> {
                    let frame = #[trigger] plan[i];
                    &&& frame.transport != skip
                    &&& frame.addr == if m.to == BROADCAST_ADDR {
                        FrameAddr::Broadcast
                    } else {
                        FrameAddr::Unicast(m.to)
                    }
                    &&& frame.message.payload.len() <= frame.transport.max_payload_spec()
                    &&& frame.message.ttl == m.ttl - 1
                    &&& frame.message.id == m.id
                    &&& frame.message.origin == m.origin
                    &&& frame.message.from == m.from
                    &&& frame.message.to == m.to
                    &&& frame.message.kind == m.kind
                }
            &&& forall|i: int, j: int|
                0 <= i <= j < plan.len() ==> transport_rank((#[trigger] plan[i]).transport)
                    <= transport_rank((#[trigger] plan[j]).transport)
            &&& m.ttl == 0 ==> plan.len() == 0
            &&& m.ttl > 0 && m.frag is None && t != skip ==> messages_on(plan, t).len() > 0
                && concat_payloads(messages_on(plan, t)) == m.payload
        }),
{
    let (v1, lora) = forward_unless(v, m, Transport::Lora, skip);
    let (v2, mqtt) = forward_unless(v1, m, Transport::Mqtt, skip);
    let (_, espnow) = forward_unless(v2, m, Transport::EspNow, skip);
    law_forward_spends_a_hop(v, m, Transport::Lora);
    law_forward_spends_a_hop(v1, m, Transport::Mqtt);
    law_forward_spends_a_hop(v2, m, Transport::EspNow);
    lemma_messages_on_concat(lora + mqtt, espnow, t);
    lemma_messages_on_concat(lora, mqtt, t);
    let none = Seq::<MessageView>::empty();
    match t {
        Transport::Lora => {
            lemma_messages_on_none(mqtt, t);
            lemma_messages_on_none(espnow, t);
            assert(messages_on(lora, t) + none + none =~= messages_on(lora, t));
        },
        Transport::Mqtt => {
            lemma_messages_on_none(lora, t);
            lemma_messages_on_none(espnow, t);
            assert(none + messages_on(mqtt, t) + none =~= messages_on(mqtt, t));
        },
        Transport::EspNow => {
            lemma_messages_on_none(lora, t);
            lemma_messages_on_none(mqtt, t);
            assert(none + none + messages_on(espnow, t) =~= messages_on(espnow, t));
        },
    }
}

/// Forwarding takes one id for each transport but the one to skip, and none for
/// a message without hops left.
pub proof fn law_ids_used_by_fanout(v: RelayView, m: MessageView, skip: Transport)
    ensures
        fanout(v, m, skip).0 == if m.ttl > 0 {
            v.ids_taken(2)
        } else {
            v
        },
{
    law_forward_uses_fresh_id(v, m, Transport::Lora);
    law_ids_taken(v, 1);
    law_forward_uses_fresh_id(v.ids_taken(1), m, Transport::Mqtt);
}

/// A message that is forwarded reaches MQTT as one frame, unless it came from
/// there: every message fits into one.
pub proof fn law_fanout_to_mqtt(v: RelayView, m: MessageView, skip: Transport)
    requires
        m.valid(),
        m.ttl > 0,
        skip != Transport::Mqtt,
    ensures
        messages_on(fanout(v, m, skip).1, Transport::Mqtt) == seq![m.relayed()->0],
{
    let t = Transport::Mqtt;
    let (v1, lora) = forward_unless(v, m, Transport::Lora, skip);
    let (v2, mqtt) = forward_unless(v1, m, t, skip);
    let (_, espnow) = forward_unless(v2, m, Transport::EspNow, skip);
    law_forward_spends_a_hop(v, m, Transport::Lora);
    law_forward_spends_a_hop(v2, m, Transport::EspNow);
    lemma_messages_on_concat(lora + mqtt, espnow, t);
    lemma_messages_on_concat(lora, mqtt, t);
    lemma_messages_on_none(lora, t);
    lemma_messages_on_none(espnow, t);
    let relayed = seq![m.relayed()->0];
    assert(mqtt == as_planned(relayed, t, FrameAddr::of_bytes(m.to)));
    lemma_messages_of_block(relayed, t, FrameAddr::of_bytes(m.to));
    let none = Seq::<MessageView>::empty();
    assert(none + relayed + none =~= relayed);
}

/// Whether a routing shows nothing and forwards nothing.
pub open spec fn is_quiet(r: RoutingView) -> bool {
    r.line is None && r.frames.len() == 0
}

/// The relay after some of the planned `frames` came back one after the other,
/// each over some transport.
pub open spec fn after_echoes(
    v: RelayView,
    frames: Seq<PlannedView>,
    echoes: Seq<(Transport, int)>,
) -> RelayView
    decreases echoes.len(),
{
    if echoes.len() == 0 {
        v
    } else {
        let (over, i) = echoes.last();
        route_frame(
            after_echoes(v, frames, echoes.drop_last()),
            over,
            frame_bytes(frames[i].message),
        ).0
    }
}

/// No slot that tracks the group of a slice holds its first slice.
spec fn lacks_first(slots: Seq<Option<Group>>, f: Fragment) -> bool {
    forall|j: int|
        0 <= j < slots.len() && tracks(f.group_id, f.total)(#[trigger] slots[j])
            ==> !slots[j]->0.slices.contains_key(0)
}

proof fn lemma_untracked_lacks_first(slots: Seq<Option<Group>>, f: Fragment)
    requires
        first_index(slots, tracks(f.group_id, f.total)) is None,
    ensures
        lacks_first(slots, f),
{
    let track = tracks(f.group_id, f.total);
    assert forall|j: int| 0 <= j < slots.len() && track(
        #[trigger] slots[j],
    ) implies !slots[j]->0.slices.contains_key(0) by {
        lemma_first_exists(slots, track, j);
    }
}

/// Whether a message is one that forwarding `m` can give: `m` itself with one
/// hop less, or one of its slices, of which there are several.
spec fn forwarded_from(f: MessageView, m: MessageView) -> bool {
    &&& f.valid()
    &&& f.id == m.id
    &&& f.frag matches Some(h) ==> h.seq < h.total && 2 <= h.total <= 32
}

proof fn lemma_forwarded(v: RelayView, m: MessageView, target: Transport, skip: Transport, i: int)
    requires
        m.valid(),
        m.frag is None,
        0 <= i < forward_unless(v, m, target, skip).1.len(),
    ensures
        forwarded_from(forward_unless(v, m, target, skip).1[i].message, m),
{
    let relayed = m.relayed()->0;
    lemma_split_works(relayed, target, v.next_id);
    law_split_preserves_payload(relayed, slice_limit(target), v.next_id);
}

proof fn lemma_fanout_frame(v: RelayView, m: MessageView, skip: Transport, i: int)
    requires
        m.valid(),
        m.frag is None,
        0 <= i < fanout(v, m, skip).1.len(),
    ensures
        forwarded_from(fanout(v, m, skip).1[i].message, m),
{
    let (v1, lora) = forward_unless(v, m, Transport::Lora, skip);
    let (v2, mqtt) = forward_unless(v1, m, Transport::Mqtt, skip);
    let (_, espnow) = forward_unless(v2, m, Transport::EspNow, skip);
    let frame = fanout(v, m, skip).1[i];
    if i < lora.len() {
        lemma_forwarded(v, m, Transport::Lora, skip, i);
        assert(frame == lora[i]);
    } else if i < lora.len() + mqtt.len() {
        lemma_forwarded(v1, m, Transport::Mqtt, skip, i - lora.len());
        assert(frame == mqtt[i - lora.len()]);
    } else {
        lemma_forwarded(v2, m, Transport::EspNow, skip, i - lora.len() - mqtt.len());
        assert(frame == espnow[i - lora.len() - mqtt.len()]);
    }
}

/// A slice other than the first completes nothing while the first is missing,
/// and brings no first slice to any group.
proof fn lemma_later_slice(slots: Seq<Option<Group>>, x: MessageView, f: Fragment)
    requires
        x.frag matches Some(h) && 0 < h.seq < h.total <= 32 && lacks_first(slots, h),
        lacks_first(slots, f),
    ensures
        lacks_first(reassemble(slots, x, 32).0, f),
        reassemble(slots, x, 32).1 is Buffered || reassemble(slots, x, 32).1 is Dropped,
{
    let h = x.frag->0;
    if let Some(i) = slot_for(slots, h.group_id, h.total) {
        let track = tracks(h.group_id, h.total);
        if first_index(slots, track) is Some {
            assert(is_first(slots, track, i));
        } else {
            assert(is_first(slots, is_free(), i));
        }
        let group = match slots[i] {
            Some(g) => g,
            None => Group::opened(h.group_id, h.total, x),
        };
        assert(track(Some(group)));
        assert(!group.slices.contains_key(0));
        let slices = group.slices.insert(h.seq as int, x.payload);
        assert(set_int_range(0, h.total as int).contains(0));
        assert(!slices.dom().contains(0));
        assert(slices.dom() != set_int_range(0, h.total as int));
        let after = reassemble(slots, x, 32).0;
        assert forall|j: int|
            0 <= j < after.len() && tracks(f.group_id, f.total)(
                #[trigger] after[j],
            ) implies !after[j]->0.slices.contains_key(0) by {
            if j != i {
                assert(after[j] == slots[j]);
            }
        }
    }
}

/// One echo is quiet as long as the message is remembered and the groups of
/// the echoed frames lack their first slices; and that does not change.
proof fn lemma_echo_is_quiet(
    v: RelayView,
    m: MessageView,
    frames: Seq<PlannedView>,
    over: Transport,
    i: int,
    age: nat,
)
    requires
        v.seen.len() <= SEEN_CAPACITY,
        recent(v.seen, m.id, age),
        age < SEEN_CAPACITY,
        0 <= i < frames.len(),
        forall|k: int|
            0 <= k < frames.len() ==> forwarded_from((#[trigger] frames[k]).message, m) && (
            frames[k].message.frag matches Some(f) ==> lacks_first(v.slots, f)),
    ensures
        ({
            let (after, routed) = route_frame(v, over, frame_bytes(frames[i].message));
            &&& routed is Ok
            &&& is_quiet(routed->Ok_0)
            &&& after.seen.len() <= SEEN_CAPACITY
            &&& recent(after.seen, m.id, age + 1)
            &&& forall|k: int|
                0 <= k < frames.len() ==> ((#[trigger] frames[k]).message.frag matches Some(f)
                    ==> lacks_first(after.slots, f))
        }),
{
    let x = frames[i].message;
    assert(forwarded_from(x, m));
    law_frame_round_trip(x);
    let at = choose|at: int|
        0 <= at < v.seen.len() && v.seen.len() - at <= age && #[trigger] v.seen[at] == m.id;
    assert(v.seen.contains(m.id));
    let (after, outcome) = v.ingest_message(over, x, 16, 32);
    if v.seen.contains(dedup_key(x)) {
        assert(recent(after.seen, m.id, age + 1));
    } else {
        lemma_recent_ages(v.seen, m.id, age, dedup_key(x));
        let h = x.frag->0;
        if h.seq == 0 {
            let id = x.id;
            assert(id ^ (0u32 << 16) == id) by (bit_vector);
        }
        lemma_later_slice(v.slots, x, h);
        assert forall|k: int| 0 <= k < frames.len() implies ((
        #[trigger] frames[k]).message.frag matches Some(f) ==> lacks_first(after.slots, f)) by {
            if let Some(f) = frames[k].message.frag {
                lemma_later_slice(v.slots, x, f);
            }
        }
    }
}

proof fn lemma_echoes(
    v: RelayView,
    m: MessageView,
    frames: Seq<PlannedView>,
    echoes: Seq<(Transport, int)>,
    age: nat,
)
    requires
        v.seen.len() <= SEEN_CAPACITY,
        recent(v.seen, m.id, age),
        echoes.len() + age < SEEN_CAPACITY,
        forall|k: int|
            0 <= k < frames.len() ==> forwarded_from((#[trigger] frames[k]).message, m) && (
            frames[k].message.frag matches Some(f) ==> lacks_first(v.slots, f)),
        forall|n: int|
            0 <= n < echoes.len() ==> 0 <= (#[trigger] echoes[n]).1 < frames.len(),
    ensures
        ({
            let after = after_echoes(v, frames, echoes);
            &&& after.seen.len() <= SEEN_CAPACITY
            &&& recent(after.seen, m.id, echoes.len() + age)
            &&& forall|k: int|
                0 <= k < frames.len() ==> ((#[trigger] frames[k]).message.frag matches Some(f)
                    ==> lacks_first(after.slots, f))
        }),
    decreases echoes.len(),
{
    if echoes.len() > 0 {
        let front = echoes.drop_last();
        assert forall|n: int| 0 <= n < front.len() implies 0 <= (#[trigger] front[n]).1
            < frames.len() by {
            assert(front[n] == echoes[n]);
        }
        lemma_echoes(v, m, frames, front, age);
        let (over, i) = echoes.last();
        assert(echoes[echoes.len() - 1] == echoes.last());
        lemma_echo_is_quiet(
            after_echoes(v, frames, front),
            m,
            frames,
            over,
            i,
            front.len() + age,
        );
    }
}

/// Forwarding uses up ids and nothing else.
pub proof fn lemma_fanout_keeps(v: RelayView, m: MessageView, skip: Transport)
    ensures
        fanout(v, m, skip).0 == (RelayView { next_id: fanout(v, m, skip).0.next_id, ..v }),
{
}

/// The message that is forwarded when `x` arrives: `x` itself, or what it
/// completes if it is a slice.
pub open spec fn forwarded_for(v: RelayView, source: Transport, x: MessageView) -> MessageView {
    match v.ingest_message(source, x, 16, 32).1 {
        IngestView::Complete(m) => m,
        IngestView::NotForMe(m) => m,
        _ => x,
    }
}

/// What a relay hands out is a whole message.
pub proof fn lemma_whole(v: RelayView, source: Transport, x: MessageView)
    requires
        valid_slots(v.slots, 32),
        x.valid(),
    ensures
        ({
            let outcome = v.ingest_message(source, x, 16, 32).1;
            &&& outcome matches IngestView::Complete(m) ==> m.valid() && m.frag is None
            &&& outcome matches IngestView::NotForMe(m) ==> m.valid() && m.frag is None
        }),
{
    if let Some(f) = x.frag {
        if let Some(i) = slot_for(v.slots, f.group_id, f.total) {
            let track = tracks(f.group_id, f.total);
            if first_index(v.slots, track) is Some {
                assert(is_first(v.slots, track, i));
            } else {
                assert(is_first(v.slots, is_free(), i));
            }
        }
    }
}

/// What is known after the bridge forwarded a message.
proof fn lemma_first_routing(v: RelayView, source: Transport, x: MessageView)
    requires
        v.seen.len() <= SEEN_CAPACITY,
        x.valid(),
        x.frag is Some ==> valid_slots(v.slots, 32),
        ({
            let routed = route_frame(v, source, frame_bytes(x)).1;
            routed is Ok && routed->Ok_0.frames.len() > 0
        }),
    ensures
        ({
            let (after, routed) = route_frame(v, source, frame_bytes(x));
            let frames = routed->Ok_0.frames;
            let m = forwarded_for(v, source, x);
            &&& after.slots == reassemble(v.slots, x, 32).0
            &&& after.seen.len() <= SEEN_CAPACITY
            &&& recent(after.seen, dedup_key(x), 1)
            &&& x.frag is None ==> m == x
            &&& forall|k: int|
                0 <= k < frames.len() ==> forwarded_from((#[trigger] frames[k]).message, m)
        }),
{
    law_frame_round_trip(x);
    let (ingested, outcome) = v.ingest_message(source, x, 16, 32);
    let (after, routed) = route_frame(v, source, frame_bytes(x));
    let m = forwarded_for(v, source, x);
    assert(!v.seen.contains(dedup_key(x)));
    if x.frag is Some {
        lemma_whole(v, source, x);
    }
    lemma_fanout_keeps(ingested, m, source);
    assert((after, routed->Ok_0.frames) == fanout(ingested, m, source));
    assert(after.seen == ingested.seen);
    assert(after.seen[after.seen.len() - 1] == dedup_key(x));
    assert forall|k: int| 0 <= k < routed->Ok_0.frames.len() implies forwarded_from(
        (#[trigger] routed->Ok_0.frames[k]).message,
        m,
    ) by {
        lemma_fanout_frame(ingested, m, source, k);
    }
}

/// Each frame that arrives makes what is remembered one older at most.
proof fn lemma_route_ages(v: RelayView, over: Transport, frame: Seq<u8>, key: u32, age: nat)
    requires
        v.seen.len() <= SEEN_CAPACITY,
        recent(v.seen, key, age),
        age < SEEN_CAPACITY,
    ensures
        route_frame(v, over, frame).0.seen.len() <= SEEN_CAPACITY,
        recent(route_frame(v, over, frame).0.seen, key, age + 1),
{
    let at = choose|at: int|
        0 <= at < v.seen.len() && v.seen.len() - at <= age && #[trigger] v.seen[at] == key;
    assert(recent(v.seen, key, age + 1));
    if let Some(x) = parse_message(frame) {
        let (ingested, outcome) = v.ingest_message(over, x, 16, 32);
        lemma_recent_ages(v.seen, key, age, dedup_key(x));
        match outcome {
            IngestView::Complete(m) => lemma_fanout_keeps(ingested, m, over),
            IngestView::NotForMe(m) => lemma_fanout_keeps(ingested, m, over),
            _ => {},
        }
    }
}

proof fn lemma_echoes_age(
    v: RelayView,
    frames: Seq<PlannedView>,
    echoes: Seq<(Transport, int)>,
    key: u32,
    age: nat,
)
    requires
        v.seen.len() <= SEEN_CAPACITY,
        recent(v.seen, key, age),
        echoes.len() + age <= SEEN_CAPACITY,
    ensures
        after_echoes(v, frames, echoes).seen.len() <= SEEN_CAPACITY,
        recent(after_echoes(v, frames, echoes).seen, key, echoes.len() + age),
    decreases echoes.len(),
{
    if echoes.len() > 0 {
        let front = echoes.drop_last();
        lemma_echoes_age(v, frames, front, key, age);
        let (over, i) = echoes.last();
        lemma_route_ages(
            after_echoes(v, frames, front),
            over,
            frame_bytes(frames[i].message),
            key,
            front.len() + age,
        );
    }
}

/// What is recent is remembered.
proof fn lemma_recent_is_seen(seen: Seq<u32>, key: u32, age: nat)
    requires
        recent(seen, key, age),
    ensures
        seen.contains(key),
{
    let at = choose|at: int|
        0 <= at < seen.len() && seen.len() - at <= age && #[trigger] seen[at] == key;
    assert(seen[at] == key);
}

/// A frame whose message is remembered is dropped.
proof fn lemma_known_frame(v: RelayView, over: Transport, m: MessageView)
    requires
        m.valid(),
        v.seen.contains(dedup_key(m)),
    ensures
        route_frame(v, over, frame_bytes(m)).1 == Ok::<RoutingView, RelayError>(no_routing()),
{
    law_frame_round_trip(m);
}

/// What the bridge has forwarded does not go round, whether the message came in
/// one frame or was put together from slices, of which `x` was the last to
/// arrive. While the message id is remembered, which is the key of its first
/// slice too, the frames that were forwarded for it may come back, over
/// whatever transports, in whatever order and repeatedly, and nothing is shown
/// or forwarded for any of them; nor for `x` itself. The groups of the
/// forwarded slices must not be tracked before. `age` says how long ago the
/// first slice arrived, in frames.
pub proof fn law_echo_while_remembered_is_dropped(
    v: RelayView,
    source: Transport,
    x: MessageView,
    age: nat,
    echoes: Seq<(Transport, int)>,
    over: Transport,
    i: int,
)
    requires
        v.seen.len() <= SEEN_CAPACITY,
        x.valid(),
        x.frag is Some ==> valid_slots(v.slots, 32),
        1 <= age,
        echoes.len() + age < SEEN_CAPACITY,
        ({
            let (after, routed) = route_frame(v, source, frame_bytes(x));
            &&& routed is Ok
            &&& recent(after.seen, forwarded_for(v, source, x).id, age)
            &&& 0 <= i < routed->Ok_0.frames.len()
            &&& forall|n: int|
                0 <= n < echoes.len() ==> 0 <= (#[trigger] echoes[n]).1
                    < routed->Ok_0.frames.len()
            &&& forall|k: int|
                0 <= k < routed->Ok_0.frames.len() ==> ((
                #[trigger] routed->Ok_0.frames[k]).message.frag matches Some(f) ==> first_index(
                    after.slots,
                    tracks(f.group_id, f.total),
                ) is None)
        }),
    ensures
        ({
            let (after, routed) = route_frame(v, source, frame_bytes(x));
            let frames = routed->Ok_0.frames;
            let later = after_echoes(after, frames, echoes);
            let echo = route_frame(later, over, frame_bytes(frames[i].message)).1;
            &&& echo matches Ok(routing) && is_quiet(routing)
            &&& frames[i].message.frag is None ==> echo == Ok::<RoutingView, RelayError>(
                no_routing(),
            )
            &&& route_frame(later, over, frame_bytes(x)).1 == Ok::<RoutingView, RelayError>(
                no_routing(),
            )
        }),
{
    lemma_first_routing(v, source, x);
    let m = forwarded_for(v, source, x);
    let (after, routed) = route_frame(v, source, frame_bytes(x));
    let frames = routed->Ok_0.frames;
    assert forall|k: int| 0 <= k < frames.len() implies ((
    #[trigger] frames[k]).message.frag matches Some(f) ==> lacks_first(after.slots, f)) by {
        if let Some(f) = frames[k].message.frag {
            lemma_untracked_lacks_first(after.slots, f);
        }
    }
    lemma_echoes(after, m, frames, echoes, age);
    lemma_echoes_age(after, frames, echoes, dedup_key(x), 1);
    let later = after_echoes(after, frames, echoes);
    lemma_echo_is_quiet(later, m, frames, over, i, echoes.len() + age);
    lemma_recent_is_seen(later.seen, m.id, echoes.len() + age);
    lemma_recent_is_seen(later.seen, dedup_key(x), echoes.len() + 1);
    lemma_known_frame(later, over, x);
    if frames[i].message.frag is None {
        lemma_known_frame(later, over, frames[i].message);
    }
}

/// What the bridge has taken in as one frame and forwarded does not go round:
/// the frames that it forwarded may come back, over whatever transports, in
/// whatever order and repeatedly, fewer than [`SEEN_CAPACITY`] of them, and
/// nothing is shown or forwarded for any of them; nor for the frame that it
/// took in. The groups of the forwarded slices must not be tracked before.
pub proof fn law_echo_is_dropped(
    v: RelayView,
    source: Transport,
    m: MessageView,
    echoes: Seq<(Transport, int)>,
    over: Transport,
    i: int,
)
    requires
        v.seen.len() <= SEEN_CAPACITY,
        m.valid(),
        m.frag is None,
        echoes.len() + 1 < SEEN_CAPACITY,
        ({
            let (_, routed) = route_frame(v, source, frame_bytes(m));
            &&& routed is Ok
            &&& 0 <= i < routed->Ok_0.frames.len()
            &&& forall|n: int|
                0 <= n < echoes.len() ==> 0 <= (#[trigger] echoes[n]).1
                    < routed->Ok_0.frames.len()
            &&& forall|k: int|
                0 <= k < routed->Ok_0.frames.len() ==> ((
                #[trigger] routed->Ok_0.frames[k]).message.frag matches Some(f) ==> first_index(
                    v.slots,
                    tracks(f.group_id, f.total),
                ) is None)
        }),
    ensures
        ({
            let (after, routed) = route_frame(v, source, frame_bytes(m));
            let frames = routed->Ok_0.frames;
            let later = after_echoes(after, frames, echoes);
            let echo = route_frame(later, over, frame_bytes(frames[i].message)).1;
            &&& echo matches Ok(routing) && is_quiet(routing)
            &&& frames[i].message.frag is None ==> echo == Ok::<RoutingView, RelayError>(
                no_routing(),
            )
            &&& route_frame(later, over, frame_bytes(m)).1 == Ok::<RoutingView, RelayError>(
                no_routing(),
            )
        }),
{
    lemma_first_routing(v, source, m);
    law_echo_while_remembered_is_dropped(v, source, m, 1, echoes, over, i);
}

} // verus!
