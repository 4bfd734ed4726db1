//! What the bridge does about whole messages, slices and texts, from the frame
//! that arrives to the frames that go out.

use crate::bridge::{
    fanout, is_quiet, law_fanout, lemma_fanout_keeps, lemma_whole, line_of, no_routing, route_frame,
    route_text, RoutingView,
};
use crate::error::RelayError;
use crate::fragment::{
    is_free, reassemble, slice_limit, split_frames, tracks, valid_slots, OutcomeView,
};
use crate::fragment_laws::{
    concat_payloads, is_order_of, law_split_preserves_payload, law_split_works,
};
use crate::port::FrameAddr;
use crate::proto::{
    frame_bytes, law_frame_round_trip, parse_message, MessageView, MsgKind, ProtoError, Transport,
    BROADCAST_ADDR, DEFAULT_TTL, MAX_PAYLOAD,
};
use crate::relay::{dedup_key, id_after, Destination, IngestView, PlannedView, RelayView};
use crate::relay_laws::{
    encoded, goes_to, ingest_frames, law_delivery, law_equal_frames, law_new_slice,
    law_plan_carries_payload, law_plan_stays_on_targets, law_send_is_refused,
    law_send_reaches_every_target, law_targets, law_whole_message, lemma_split_works, messages_on,
    transport_rank,
};
use crate::search::first_index;
use crate::text::{
    first_chars, law_packed_keeps_beginning, law_text_round_trip, lemma_packed_whole, text_of,
};
use vstd::prelude::*;
use vstd::utf8::{encode_utf8, is_ascii_chars, is_ascii_chars_encode_utf8};

verus! {

/// Whether `frames` carry `m` on from `source`: on every other transport, in
/// the order of [`Transport::ALL`], in frames that fit, that join to the
/// payload, that are addressed to where `m` goes, and that differ from `m` in
/// nothing else but one hop less. A message without hops left is not carried on.
pub open spec fn carry_on(frames: Seq<PlannedView>, m: MessageView, source: Transport) -> bool {
    &&& m.ttl == 0 ==> frames.len() == 0
    &&& forall|i: int, j: int|
        0 <= i <= j < frames.len() ==> transport_rank((#[trigger] frames[i]).transport)
            <= transport_rank((#[trigger] frames[j]).transport)
    &&& m.ttl > 0 ==> forall|t: Transport|
        t != source ==> (#[trigger] messages_on(frames, t)).len() > 0 && concat_payloads(
            messages_on(frames, t),
        ) == m.payload
    &&& forall|i: int|
        0 <= i < frames.len() ==> {
            let frame = #[trigger] frames[i];
            &&& frame.transport != source
            &&& frame.addr == if m.to == BROADCAST_ADDR {
                FrameAddr::Broadcast
            } else {
                FrameAddr::Unicast(m.to)
            }
            &&& frame.message.payload.len() <= frame.transport.max_payload_spec()
            &&& frame.message.ttl == m.ttl - 1
            &&& frame.message.id == m.id
            &&& frame.message.origin == m.origin
            &&& frame.message.from == m.from
            &&& frame.message.to == m.to
            &&& frame.message.kind == m.kind
        }
}

/// Whether a routing does what a whole message `m` from `source` calls for at
/// the node `me`: it is shown if it is for this node or for every node, and it
/// is carried on unless it is for this node alone.
pub open spec fn serves(
    routing: RoutingView,
    m: MessageView,
    source: Transport,
    me: [u8; 6],
) -> bool {
    &&& routing.dropped is None
    &&& routing.line is Some <==> m.to == me || m.to == BROADCAST_ADDR
    &&& routing.line matches Some(line) ==> line.origin == m.origin
    &&& m.to == me && m.to != BROADCAST_ADDR ==> routing.frames.len() == 0
    &&& m.to != me || m.to == BROADCAST_ADDR ==> carry_on(routing.frames, m, source)
}

proof fn lemma_fanout_carries_on(v: RelayView, m: MessageView, source: Transport)
    requires
        m.valid(),
        m.frag is None,
    ensures
        carry_on(fanout(v, m, source).1, m, source),
{
    let frames = fanout(v, m, source).1;
    law_fanout(v, m, source, Transport::Lora);
    assert forall|t: Transport| m.ttl > 0 && t != source implies (#[trigger] messages_on(
        frames,
        t,
    )).len() > 0 && concat_payloads(messages_on(frames, t)) == m.payload by {
        law_fanout(v, m, source, t);
    }
}

/// A whole message that was not seen before, whichever transport it comes from:
/// what is for this node is shown and goes no further, what is for every node
/// is shown and carried on to the other transports, and what is for another
/// node is carried on to the other transports and not shown.
pub proof fn law_new_message_is_routed(v: RelayView, source: Transport, m: MessageView)
    requires
        m.valid(),
        m.frag is None,
        !v.seen.contains(m.id),
    ensures
        route_frame(v, source, frame_bytes(m)).1 is Ok,
        serves(route_frame(v, source, frame_bytes(m)).1->Ok_0, m, source, v.self_addr),
{
    law_frame_round_trip(m);
    law_whole_message(v, source, m, 16, 32);
    let (after, _) = v.ingest_message(source, m, 16, 32);
    lemma_fanout_carries_on(after, m, source);
}

/// A whole message, or a slice, that was seen before leads to nothing.
pub proof fn law_known_message_is_not_routed(v: RelayView, source: Transport, m: MessageView)
    requires
        m.valid(),
        v.seen.contains(dedup_key(m)),
    ensures
        ({
            let (after, routed) = route_frame(v, source, frame_bytes(m));
            &&& routed is Ok
            &&& is_quiet(routed->Ok_0)
            &&& routed->Ok_0.dropped is None
            &&& after == (RelayView { rows: after.rows, ..v })
        }),
{
    law_frame_round_trip(m);
}

/// A slice that was not seen before: one that completes a message does what
/// the whole message would have done, one that is kept leads to nothing, and
/// one that is dropped leads to the reason and to nothing else.
pub proof fn law_new_slice_is_routed(v: RelayView, source: Transport, x: MessageView)
    requires
        x.valid(),
        x.frag is Some,
        valid_slots(v.slots, 32),
        !v.seen.contains(dedup_key(x)),
    ensures
        route_frame(v, source, frame_bytes(x)).1 is Ok,
        ({
            let routing = route_frame(v, source, frame_bytes(x)).1->Ok_0;
            match reassemble(v.slots, x, 32).1 {
                OutcomeView::Complete(m) => serves(routing, m, source, v.self_addr),
                OutcomeView::Dropped(reason) => is_quiet(routing) && routing.dropped == Some(
                    reason,
                ),
                OutcomeView::Buffered => is_quiet(routing) && routing.dropped is None,
                OutcomeView::Passthrough(_) => false,
            }
        }),
{
    law_frame_round_trip(x);
    law_new_slice(v, source, x, 16, 32);
    lemma_whole(v, source, x);
    let (after, _) = v.ingest_message(source, x, 16, 32);
    if let OutcomeView::Complete(m) = reassemble(v.slots, x, 32).1 {
        lemma_fanout_carries_on(after, m, source);
    }
}

/// The bridge takes a frame in as its relay does: routing it changes nothing
/// more than the next id, and not even that if nothing is carried on. Bytes
/// that hold no message are an error and change nothing.
pub proof fn law_routing_takes_in(v: RelayView, source: Transport, frame: Seq<u8>)
    ensures
        ({
            let (after, routed) = route_frame(v, source, frame);
            let (taken, outcome) = v.ingest_frame(source, frame, 16, 32);
            &&& after == (RelayView { next_id: after.next_id, ..taken })
            &&& routed is Ok <==> outcome is Ok
            &&& parse_message(frame) is None ==> after == v && routed == Err::<
                RoutingView,
                RelayError,
            >(RelayError::Protocol(ProtoError::Decode))
            &&& outcome == Ok::<IngestView, RelayError>(IngestView::Buffered) ==> after == taken
            &&& outcome == Ok::<IngestView, RelayError>(IngestView::Duplicate) ==> after == taken
            &&& outcome matches Ok(IngestView::Dropped(_)) ==> after == taken
            &&& outcome matches Ok(IngestView::Complete(m)) ==> (m.to != BROADCAST_ADDR ==> after
                == taken)
        }),
{
    let (taken, outcome) = v.ingest_frame(source, frame, 16, 32);
    if let Ok(o) = outcome {
        match o {
            IngestView::Complete(m) => lemma_fanout_keeps(taken, m, source),
            IngestView::NotForMe(m) => lemma_fanout_keeps(taken, m, source),
            _ => {},
        }
    }
}

/// The line for a message names the transport where the message entered the
/// mesh. It has no more than 47 characters and 48 bytes, and it starts with as
/// many of the message's first characters as that leaves room for; the line
/// for a message that is no text says so.
pub proof fn law_line(m: MessageView, text: Seq<char>, k: nat)
    requires
        m.payload == encode_utf8(text),
        k <= text.len(),
        k <= 47,
        encode_utf8(text.take(k as int)).len() <= 48,
    ensures
        line_of(m).origin == m.origin,
        line_of(m).text.len() <= 47,
        encode_utf8(line_of(m).text).len() <= 48,
        text.take(k as int).is_prefix_of(line_of(m).text),
        k == text.len() ==> line_of(m).text == text,
{
    law_text_round_trip(text, m.payload);
    let shown = first_chars(text, 47);
    assert(shown.take(k as int) =~= text.take(k as int));
    law_packed_keeps_beginning(shown, k, 48);
    if k == text.len() {
        assert(text.take(k as int) =~= text);
        assert(shown == text);
        assert(line_of(m).text.len() <= text.len());
        assert(line_of(m).text =~= text);
    }
}

/// A message that is no text is shown by a placeholder.
pub proof fn law_binary_line(m: MessageView)
    requires
        forall|text: Seq<char>| m.payload != #[trigger] encode_utf8(text),
    ensures
        line_of(m).origin == m.origin,
        line_of(m).text == "<binary>"@,
{
    if let Some(text) = text_of(m.payload) {
        law_text_round_trip(text, m.payload);
        assert(m.payload == encode_utf8(text));
    }
    reveal_strlit("<binary>");
    let placeholder = "<binary>"@;
    assert(is_ascii_chars(placeholder));
    is_ascii_chars_encode_utf8(placeholder);
    assert(Seq::<char>::empty() + placeholder =~= placeholder);
    lemma_packed_whole(Seq::empty(), placeholder, 48);
}

/// The line for a text that was composed on the terminal starts with its first
/// characters, and it is that text if it is short. This holds of plain ASCII
/// text of any length and of any text of up to 180 bytes; in a longer text a
/// character may be cut in two between slices.
pub proof fn law_local_text_is_shown(v: RelayView, text: Seq<char>)
    requires
        is_ascii_chars(text) || encode_utf8(text).len() <= 180,
        route_text(v, text).1 is Ok,
    ensures
        ({
            let line = route_text(v, text).1->Ok_0.line;
            &&& line is Some
            &&& v.ports.contains(line->0.origin)
            &&& text.len() <= 47 && encode_utf8(text).len() <= 48 ==> line->0.text == text
            &&& is_ascii_chars(text) && text.len() > 47 ==> line->0.text == text.take(47)
        }),
{
    let dest = Destination::Broadcast;
    let payload = encode_utf8(text);
    let plan = v.send_plan(MsgKind::Text, payload, dest).1->Ok_0;
    let targets = v.targets(dest)->Ok_0;
    law_targets(v, dest, targets[0]);
    assert(targets.contains(targets[0]));
    lemma_first_frame(v, targets, targets.len(), MsgKind::Text, payload, dest);
    let m = plan[0].message;
    if payload.len() <= 180 {
        assert(payload.take(payload.len() as int) =~= payload);
        assert(m.payload == payload);
        if text.len() <= 47 && payload.len() <= 48 {
            assert(text.take(text.len() as int) =~= text);
            law_line(m, text, text.len());
        }
    }
    if is_ascii_chars(text) && text.len() > 47 {
        is_ascii_chars_encode_utf8(text);
        let cut = m.payload.len();
        let part = text.take(cut as int);
        assert(is_ascii_chars(part));
        is_ascii_chars_encode_utf8(part);
        assert(encode_utf8(part) =~= m.payload);
        let start = part.take(47);
        assert(start =~= text.take(47));
        assert(is_ascii_chars(start));
        is_ascii_chars_encode_utf8(start);
        law_line(m, part, 47);
        assert(line_of(m).text =~= start);
    }
}

/// The first frame of a plan holds the beginning of the payload: all of it, or
/// as much as the frame can hold.
proof fn lemma_first_frame(
    v: RelayView,
    targets: Seq<Transport>,
    n: nat,
    kind: MsgKind,
    payload: Seq<u8>,
    dest: Destination,
)
    requires
        0 < n <= targets.len(),
        payload.len() <= MAX_PAYLOAD,
    ensures
        ({
            let frames = v.frames_to(targets, n, kind, payload, dest);
            let cut = if payload.len() <= slice_limit(targets[0]) {
                payload.len()
            } else {
                slice_limit(targets[0])
            };
            &&& frames.len() > 0
            &&& frames[0].message.origin == targets[0]
            &&& frames[0].message.payload == payload.take(cut as int)
        }),
    decreases n,
{
    reveal_with_fuel(RelayView::frames_to, 2);
    let t = targets[n - 1];
    let m = v.outgoing(v.next_id, kind, payload, dest, t);
    let group_id = id_after(v.next_id, n);
    lemma_split_works(m, t, group_id);
    if n > 1 {
        lemma_first_frame(v, targets, (n - 1) as nat, kind, payload, dest);
    } else {
        let frames = split_frames(m, slice_limit(t), group_id)->0;
        law_split_works(m, slice_limit(t), group_id);
        if payload.len() <= slice_limit(t) {
            assert(payload.take(payload.len() as int) =~= payload);
        } else {
            assert(frames[0].payload =~= payload.take(slice_limit(t) as int));
        }
    }
}

/// A text that was composed on the terminal goes to every node over every
/// registered transport, whole, and the user sees it too. It is refused if no
/// transport is registered or if it is too large for a message.
pub proof fn law_local_text_is_broadcast(v: RelayView, text: Seq<char>, t: Transport)
    ensures
        ({
            let (after, routed) = route_text(v, text);
            let payload = encode_utf8(text);
            &&& after == (RelayView { next_id: after.next_id, ..v })
            &&& (forall|u: Transport| !v.ports.contains(u)) ==> routed == Err::<
                RoutingView,
                RelayError,
            >(RelayError::NoPortsRegistered)
            &&& v.ports.contains(t) && payload.len() > MAX_PAYLOAD ==> routed == Err::<
                RoutingView,
                RelayError,
            >(RelayError::Protocol(ProtoError::PayloadTooLarge))
            &&& v.ports.contains(t) && payload.len() <= MAX_PAYLOAD ==> {
                &&& routed is Ok
                &&& routed->Ok_0.line is Some
                &&& routed->Ok_0.dropped is None
                &&& messages_on(routed->Ok_0.frames, t).len() > 0
                &&& concat_payloads(messages_on(routed->Ok_0.frames, t)) == payload
                &&& forall|i: int|
                    0 <= i < messages_on(routed->Ok_0.frames, t).len() ==> {
                        let m = #[trigger] messages_on(routed->Ok_0.frames, t)[i];
                        &&& m.payload.len() <= t.max_payload_spec()
                        &&& m.id == v.next_id
                        &&& m.kind == MsgKind::Text
                        &&& m.ttl == DEFAULT_TTL
                        &&& m.from == v.self_addr
                        &&& m.to == BROADCAST_ADDR
                        &&& m.origin == t
                    }
            }
            &&& routed matches Ok(routing) ==> forall|i: int|
                0 <= i < routing.frames.len() ==> v.ports.contains(
                    (#[trigger] routing.frames[i]).transport,
                ) && routing.frames[i].addr == FrameAddr::Broadcast
        }),
{
    let dest = Destination::Broadcast;
    let payload = encode_utf8(text);
    if v.ports.contains(t) {
        assert(goes_to(v, dest, t));
        law_send_reaches_every_target(v, MsgKind::Text, payload, dest, t);
        law_targets(v, dest, t);
        if payload.len() <= MAX_PAYLOAD {
            law_plan_carries_payload(v, MsgKind::Text, payload, dest, t);
        }
    }
    if forall|u: Transport| !v.ports.contains(u) {
        law_send_is_refused(v, MsgKind::Text, payload, dest);
    }
    if let Ok(frames) = v.send_plan(MsgKind::Text, payload, dest).1 {
        assert forall|i: int| 0 <= i < frames.len() implies v.ports.contains(
            (#[trigger] frames[i]).transport,
        ) && frames[i].addr == FrameAddr::Broadcast by {
            law_plan_stays_on_targets(v, MsgKind::Text, payload, dest, i);
            law_targets(v, dest, frames[i].transport);
        }
    }
}

/// Frames that hold the same message are routed the same.
pub proof fn law_equal_frames_are_routed_alike(
    v: RelayView,
    source: Transport,
    frame: Seq<u8>,
    m: MessageView,
)
    requires
        parse_message(frame) == Some(m),
    ensures
        route_frame(v, source, frame) == route_frame(v, source, frame_bytes(m)),
{
    law_equal_frames(v, source, frame, m, 16, 32);
}

// ---------------------------------------------------------------------------
// Messages in slices
// ---------------------------------------------------------------------------

/// The bridge after frames arrived over `source` one after the other, and what
/// was to be done about each.
pub open spec fn route_frames(v: RelayView, source: Transport, frames: Seq<Seq<u8>>) -> (
    RelayView,
    Seq<Result<RoutingView, RelayError>>,
)
    decreases frames.len(),
{
    if frames.len() == 0 {
        (v, Seq::empty())
    } else {
        let (before, routed) = route_frames(v, source, frames.drop_last());
        let (after, last) = route_frame(before, source, frames.last());
        (after, routed.push(last))
    }
}

/// As long as slices are only kept, nothing is done about any of them.
proof fn lemma_kept_slices(v: RelayView, source: Transport, frames: Seq<Seq<u8>>)
    requires
        forall|i: int|
            0 <= i < frames.len() ==> #[trigger] ingest_frames(v, source, frames, 16, 32).1[i]
                == Ok::<IngestView, RelayError>(IngestView::Buffered),
    ensures
        route_frames(v, source, frames).0 == ingest_frames(v, source, frames, 16, 32).0,
        route_frames(v, source, frames).1.len() == frames.len(),
        ingest_frames(v, source, frames, 16, 32).1.len() == frames.len(),
        forall|i: int|
            0 <= i < frames.len() ==> #[trigger] route_frames(v, source, frames).1[i] == Ok::<
                RoutingView,
                RelayError,
            >(no_routing()),
    decreases frames.len(),
{
    if frames.len() > 0 {
        let front = frames.drop_last();
        lemma_outcome_count(v, source, front);
        let (all, before) = (
            ingest_frames(v, source, frames, 16, 32).1,
            ingest_frames(v, source, front, 16, 32).1,
        );
        assert forall|i: int| 0 <= i < front.len() implies #[trigger] before[i] == Ok::<
            IngestView,
            RelayError,
        >(IngestView::Buffered) by {
            assert(all[i] == before[i]);
        }
        lemma_kept_slices(v, source, front);
        assert(all[frames.len() - 1] == Ok::<IngestView, RelayError>(IngestView::Buffered));
        let earlier = route_frames(v, source, front).1;
        let routed = route_frames(v, source, frames).1;
        assert forall|i: int| 0 <= i < frames.len() implies #[trigger] routed[i] == Ok::<
            RoutingView,
            RelayError,
        >(no_routing()) by {
            if i < front.len() {
                assert(routed[i] == earlier[i]);
            }
        }
    }
}

proof fn lemma_outcome_count(v: RelayView, source: Transport, frames: Seq<Seq<u8>>)
    ensures
        ingest_frames(v, source, frames, 16, 32).1.len() == frames.len(),
    decreases frames.len(),
{
    if frames.len() > 0 {
        lemma_outcome_count(v, source, frames.drop_last());
    }
}

/// A message that was cut for whatever transport and whose slices arrive in
/// whatever order: nothing is done until the last one arrives, and then what
/// the whole message calls for. The slices must be new, and there must be room
/// for their group.
pub proof fn law_sliced_message_is_routed(
    v: RelayView,
    source: Transport,
    m: MessageView,
    t: Transport,
    group_id: u32,
    order: Seq<int>,
)
    requires
        m.valid(),
        m.frag is None,
        ({
            let frames = split_frames(m, slice_limit(t), group_id)->0;
            &&& is_order_of(order, frames.len())
            &&& forall|i: int|
                0 <= i < frames.len() ==> !v.seen.contains(dedup_key(#[trigger] frames[i]))
            &&& frames.len() > 1 ==> {
                &&& first_index(v.slots, is_free()) is Some
                &&& first_index(v.slots, tracks(group_id, frames.len() as u16)) is None
            }
        }),
    ensures
        ({
            let frames = split_frames(m, slice_limit(t), group_id)->0;
            let arriving = Seq::new(order.len(), |i: int| frames[order[i]]);
            let routed = route_frames(v, source, encoded(arriving)).1;
            &&& routed.len() == frames.len() > 0
            &&& forall|i: int|
                0 <= i < routed.len() - 1 ==> (#[trigger] routed[i] matches Ok(r) && is_quiet(r)
                    && r.dropped is None)
            &&& routed.last() matches Ok(r) && serves(r, m, source, v.self_addr)
        }),
{
    lemma_split_works(m, t, group_id);
    law_split_preserves_payload(m, slice_limit(t), group_id);
    law_delivery(m, v, t, source, group_id, order, 16, 32);
    let frames = split_frames(m, slice_limit(t), group_id)->0;
    let arriving = Seq::new(order.len(), |i: int| frames[order[i]]);
    let bytes = encoded(arriving);
    let front = bytes.drop_last();
    lemma_outcome_count(v, source, front);
    let all = ingest_frames(v, source, bytes, 16, 32).1;
    let (before, kept) = ingest_frames(v, source, front, 16, 32);
    assert forall|i: int| 0 <= i < front.len() implies #[trigger] kept[i] == Ok::<
        IngestView,
        RelayError,
    >(IngestView::Buffered) by {
        assert(all[i] == kept[i]);
    }
    lemma_kept_slices(v, source, front);
    let routed = route_frames(v, source, bytes).1;
    let earlier = route_frames(v, source, front).1;
    assert forall|i: int| 0 <= i < routed.len() - 1 implies (#[trigger] routed[i] matches Ok(r)
        && is_quiet(r) && r.dropped is None) by {
        assert(routed[i] == earlier[i]);
    }
    let (after, outcome) = before.ingest_frame(source, bytes.last(), 16, 32);
    assert(outcome == all.last());
    lemma_fanout_carries_on(after, m, source);
}

} // verus!
