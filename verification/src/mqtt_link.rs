//! The MQTT link of the Cardputer terminal.
//!
//! Topic convention (avoids self-echo loops through the broker):
//! - The terminal subscribes to [`TOPIC_UPLINK`] (MQTT world to mesh).
//! - The terminal publishes to [`TOPIC_DOWNLINK`] (mesh to MQTT world).
//!
//! This module holds what the link decides: where the broker is, when to
//! reconnect, and how publications and mesh messages turn into each other.

use crate::bounded::{bytes_eq, BoundedVec};
use crate::bridge::{
    body_of, display_text, law_fanout, law_fanout_to_mqtt, line_of, route_frame, Bridge, RawFrame,
    CARD_ADDR,
};
use crate::fragment_laws::concat_payloads;
use crate::port::FrameAddr;
use crate::ports::mqtt::{
    law_publication_round_trip, lemma_short_lengths, packet_bytes, publication, publish_body,
    Mqtt311Client, Mqtt311Error, OUT_BUF,
};
use crate::proto::{
    frame_bytes, fresh_message, law_frame_round_trip, Message, MessageView, MsgKind, ProtoError,
    Transport, BROADCAST_ADDR, DEFAULT_TTL, MAX_PAYLOAD,
};
use crate::relay::{IngestView, RelayView};
use crate::relay_laws::messages_on;
use crate::text::{decimal, law_decimal, law_text_round_trip, number_in, text_of, utf8_text};
use vstd::prelude::*;
use vstd::slice::slice_subrange;
use vstd::utf8::{encode_utf8, is_ascii_chars, is_ascii_chars_encode_utf8};

verus! {

/// Injected into the mesh from the MQTT world.
pub const TOPIC_UPLINK: &'static str = "relaystar/uplink";

/// Emitted from the mesh out to the MQTT world.
pub const TOPIC_DOWNLINK: &'static str = "relaystar/downlink";

/// MQTT client identifier of the terminal.
pub const CLIENT_ID: &'static str = "relaystar-card";

/// Keepalive interval.
pub const KEEPALIVE_SECS: u16 = 30;

/// Where the broker listens unless configured otherwise.
pub const DEFAULT_PORT: u16 = 1883;

/// The wait before another attempt to connect.
pub const BACKOFF_SECS: u64 = 5;

// ---------------------------------------------------------------------------
// Numbers and addresses
// ---------------------------------------------------------------------------

/// Whether all bytes are decimal digits.
pub open spec fn all_digits(b: Seq<u8>) -> bool {
    forall|i: int| 0 <= i < b.len() ==> 0x30 <= #[trigger] b[i] <= 0x39
}

/// The number that decimal digits make.
pub open spec fn digits_value(b: Seq<u8>) -> nat
    decreases b.len(),
{
    if b.len() == 0 {
        0
    } else {
        (10 * digits_value(b.drop_last()) + (b.last() - 0x30)) as nat
    }
}

/// The digits of a number, which may have a plus sign in front.
pub open spec fn unsigned(b: Seq<u8>) -> Seq<u8> {
    if b.len() > 0 && b[0] == 0x2B {
        b.skip(1)
    } else {
        b
    }
}

/// The number that a text stands for, if it is one and at most `max`.
pub open spec fn number_of(b: Seq<u8>, max: nat) -> Option<nat> {
    let digits = unsigned(b);
    if digits.len() > 0 && all_digits(digits) && digits_value(digits) <= max {
        Some(digits_value(digits))
    } else {
        None
    }
}

/// More digits make no smaller number.
proof fn lemma_digits_grow(b: Seq<u8>, n: int)
    requires
        all_digits(b),
        0 <= n <= b.len(),
    ensures
        digits_value(b.take(n)) <= digits_value(b),
    decreases b.len(),
{
    if n < b.len() {
        lemma_digits_grow(b.drop_last(), n);
        assert(b.drop_last().take(n) =~= b.take(n));
    } else {
        assert(b.take(n) =~= b);
    }
}

/// Reads a number of at most `max`.
fn parse_number(b: &[u8], max: u32) -> (r: Option<u32>)
    requires
        max <= 0xFFFF,
    ensures
        r is Some <==> number_of(b@, max as nat) is Some,
        r is Some ==> Some(r->0 as nat) == number_of(b@, max as nat),
{
    let start: usize = if b.len() > 0 && b[0] == 0x2B {
        1
    } else {
        0
    };
    let ghost digits = unsigned(b@);
    assert(digits =~= b@.skip(start as int));
    if start >= b.len() {
        return None;
    }
    let mut value: u32 = 0;
    let mut i: usize = start;
    while i < b.len()
        invariant
            start <= i <= b@.len(),
            max <= 0xFFFF,
            digits == b@.skip(start as int),
            digits == unsigned(b@),
            all_digits(digits.take(i - start)),
            value == digits_value(digits.take(i - start)),
            value <= max,
        decreases b.len() - i,
    {
        let d = b[i];
        assert(d == digits[i - start]);
        if d < 0x30 || d > 0x39 {
            return None;
        }
        let ghost before = digits.take(i - start);
        value = value * 10 + (d - 0x30) as u32;
        proof {
            let now = digits.take(i + 1 - start);
            assert(now.drop_last() =~= before);
            assert forall|k: int| 0 <= k < now.len() implies 0x30 <= #[trigger] now[k] <= 0x39 by {
                if k < before.len() {
                    assert(now[k] == before[k]);
                }
            }
            if value > max && all_digits(digits) {
                lemma_digits_grow(digits, i + 1 - start);
            }
        }
        if value > max {
            return None;
        }
        i += 1;
    }
    assert(digits.take(i - start) =~= digits);
    Some(value)
}

/// The parts of a text between its dots.
pub open spec fn split_dots(b: Seq<u8>) -> Seq<Seq<u8>>
    decreases b.len(),
{
    if b.len() == 0 {
        seq![Seq::empty()]
    } else {
        let front = split_dots(b.drop_last());
        if b.last() == 0x2E {
            front.push(Seq::empty())
        } else {
            front.update(front.len() - 1, front.last().push(b.last()))
        }
    }
}

/// The IPv4 address that a text stands for, if it is one: four numbers of at
/// most 255 between dots.
pub open spec fn ipv4_of(b: Seq<u8>) -> Option<[u8; 4]> {
    let parts = split_dots(b);
    if parts.len() == 4 && (forall|i: int|
        0 <= i < 4 ==> number_of(#[trigger] parts[i], 255) is Some) {
        Some(
            [
                number_of(parts[0], 255)->0 as u8,
                number_of(parts[1], 255)->0 as u8,
                number_of(parts[2], 255)->0 as u8,
                number_of(parts[3], 255)->0 as u8,
            ],
        )
    } else {
        None
    }
}

/// Reading on never changes a part that a dot has ended.
proof fn lemma_split_prefix(b: Seq<u8>, n: int)
    requires
        0 <= n <= b.len(),
    ensures
        1 <= split_dots(b.take(n)).len() <= split_dots(b).len(),
        forall|k: int|
            0 <= k < split_dots(b.take(n)).len() - 1 ==> #[trigger] split_dots(b)[k] == split_dots(
                b.take(n),
            )[k],
    decreases b.len(),
{
    if n < b.len() {
        lemma_split_prefix(b.drop_last(), n);
        assert(b.drop_last().take(n) =~= b.take(n));
    } else {
        assert(b.take(n) =~= b);
        if b.len() > 0 {
            lemma_split_prefix(b.drop_last(), 0);
        }
    }
}

/// Reads an IPv4 address.
pub fn parse_ipv4(s: &str) -> (r: Option<[u8; 4]>)
    ensures
        r == ipv4_of(encode_utf8(s@)),
{
    let b = s.as_bytes();
    let mut parts: [u8; 4] = [0, 0, 0, 0];
    let mut count: usize = 0;
    let mut start: usize = 0;
    let mut i: usize = 0;
    let ghost all = split_dots(b@);
    assert(b@.take(0) =~= Seq::empty());
    assert(b@.subrange(0, 0) =~= Seq::empty());
    while i < b.len()
        invariant
            start <= i <= b@.len(),
            b@ == encode_utf8(s@),
            all == split_dots(b@),
            count < 4,
            split_dots(b@.take(i as int)).len() == count + 1,
            split_dots(b@.take(i as int)).last() == b@.subrange(start as int, i as int),
            forall|k: int|
                0 <= k < count ==> number_of(
                    #[trigger] split_dots(b@.take(i as int))[k],
                    255,
                ) == Some(parts@[k] as nat),
        decreases b.len() - i,
    {
        let ghost before = split_dots(b@.take(i as int));
        let ghost now = split_dots(b@.take(i + 1));
        proof {
            assert(b@.take(i + 1).drop_last() =~= b@.take(i as int));
            lemma_split_prefix(b@, i + 1);
        }
        if b[i] == 0x2E {
            let octet = parse_number(slice_subrange(b, start, i), 255);
            assert(now[count as int] == before.last());
            assert(all[count as int] == now[count as int]);
            match octet {
                None => {
                    return None;
                },
                Some(v) => {
                    parts[count] = v as u8;
                },
            }
            assert(number_of(now[count as int], 255) == Some(parts@[count as int] as nat));
            assert forall|k: int| 0 <= k < count + 1 implies number_of(
                #[trigger] now[k],
                255,
            ) == Some(parts@[k] as nat) by {
                if k < count {
                    assert(now[k] == before[k]);
                }
            }
            count += 1;
            start = i + 1;
            assert(b@.subrange(start as int, i + 1) =~= Seq::empty());
            if count == 4 {
                return None;
            }
        } else {
            assert(now.last() =~= b@.subrange(start as int, i + 1));
            assert forall|k: int| 0 <= k < count implies number_of(#[trigger] now[k], 255) == Some(
                parts@[k] as nat,
            ) by {
                assert(now[k] == before[k]);
            }
        }
        i += 1;
    }
    assert(b@.take(i as int) =~= b@);
    assert(all[count as int] == b@.subrange(start as int, i as int));
    match parse_number(slice_subrange(b, start, i), 255) {
        None => None,
        Some(v) => {
            if count == 3 {
                parts[3] = v as u8;
                proof {
                    assert forall|k: int| 0 <= k < 4 implies number_of(#[trigger] all[k], 255)
                        == Some(parts@[k] as nat) by {}
                    assert(parts =~= ipv4_of(b@)->0);
                }
                Some(parts)
            } else {
                None
            }
        },
    }
}

/// The port that a text stands for, or the usual one if it stands for none.
pub open spec fn port_of(text: Seq<char>) -> u16 {
    match number_of(encode_utf8(text), 0xFFFF) {
        Some(n) => n as u16,
        None => DEFAULT_PORT,
    }
}

/// The port of the broker: the number that `s` stands for, or the usual one if
/// it is none.
pub fn broker_port(s: &str) -> (port: u16)
    ensures
        port == port_of(s@),
        port == match number_of(encode_utf8(s@), 0xFFFF) {
            Some(n) => n as u16,
            None => DEFAULT_PORT,
        },
{
    match parse_number(s.as_bytes(), 0xFFFF) {
        Some(n) => n as u16,
        None => DEFAULT_PORT,
    }
}

// ---------------------------------------------------------------------------
// Staying connected
// ---------------------------------------------------------------------------

/// What the link is doing.
#[derive(Debug, Clone, Copy, PartialEq, Eq, Structural)]
pub enum LinkState {
    /// Opening the TCP connection.
    Tcp,
    /// Opening the MQTT session.
    Connect,
    /// Subscribing to [`TOPIC_UPLINK`].
    Subscribe,
    /// Exchanging messages.
    Steady,
}

/// What to do next on the link, and how many seconds to wait before.
#[derive(Debug, Clone, Copy, PartialEq, Eq, Structural)]
pub struct LinkMove {
    pub state: LinkState,
    pub wait_secs: u64,
}

/// What to do after a step of the link succeeded or failed.
pub open spec fn link_move(state: LinkState, ok: bool) -> LinkMove {
    match (state, ok) {
        (LinkState::Tcp, true) => LinkMove { state: LinkState::Connect, wait_secs: 0 },
        (LinkState::Connect, true) => LinkMove { state: LinkState::Subscribe, wait_secs: 0 },
        (LinkState::Subscribe, true) => LinkMove { state: LinkState::Steady, wait_secs: 0 },
        (LinkState::Steady, true) => LinkMove { state: LinkState::Steady, wait_secs: 0 },
        (LinkState::Steady, false) => LinkMove { state: LinkState::Tcp, wait_secs: 0 },
        (_, false) => LinkMove { state: LinkState::Tcp, wait_secs: BACKOFF_SECS },
    }
}

/// What to do after a step of the link succeeded or failed. A failure on the
/// way to an open session is followed by a wait, so that attempts do not come
/// too fast; an open session that fails is reopened at once.
pub fn next_link_state(state: LinkState, ok: bool) -> (m: LinkMove)
    ensures
        m == link_move(state, ok),
        m == match (state, ok) {
            (LinkState::Tcp, true) => (LinkMove { state: LinkState::Connect, wait_secs: 0 }),
            (LinkState::Connect, true) => (LinkMove { state: LinkState::Subscribe, wait_secs: 0 }),
            (LinkState::Subscribe, true) => (LinkMove { state: LinkState::Steady, wait_secs: 0 }),
            (LinkState::Steady, true) => (LinkMove { state: LinkState::Steady, wait_secs: 0 }),
            (LinkState::Steady, false) => (LinkMove { state: LinkState::Tcp, wait_secs: 0 }),
            (_, false) => (LinkMove { state: LinkState::Tcp, wait_secs: BACKOFF_SECS }),
        },
{
    if ok {
        let next = match state {
            LinkState::Tcp => LinkState::Connect,
            LinkState::Connect => LinkState::Subscribe,
            LinkState::Subscribe => LinkState::Steady,
            LinkState::Steady => LinkState::Steady,
        };
        LinkMove { state: next, wait_secs: 0 }
    } else {
        match state {
            LinkState::Steady => LinkMove { state: LinkState::Tcp, wait_secs: 0 },
            _ => LinkMove { state: LinkState::Tcp, wait_secs: BACKOFF_SECS },
        }
    }
}

// ---------------------------------------------------------------------------
// Between the broker and the mesh
// ---------------------------------------------------------------------------

/// The text that a publication injects into the mesh, if it is one that does.
pub open spec fn uplink_text_of(topic: Seq<char>, payload: Seq<u8>) -> Option<Seq<char>> {
    if topic == TOPIC_UPLINK@ {
        match text_of(payload) {
            Some(text) => Some(text),
            None => Some("<binary>"@),
        }
    } else {
        None
    }
}

/// The text that a publication injects into the mesh: its payload, or a
/// placeholder if that is no text. Other topics inject nothing.
pub fn uplink_text<'a>(topic: &str, payload: &'a [u8]) -> (r: Option<&'a str>)
    ensures
        r is Some <==> uplink_text_of(topic@, payload@) is Some,
        r is Some ==> Some(r->0@) == uplink_text_of(topic@, payload@),
{
    proof {
        law_text_round_trip(topic@, encode_utf8(topic@));
        law_text_round_trip(TOPIC_UPLINK@, encode_utf8(topic@));
    }
    if !bytes_eq(topic.as_bytes(), TOPIC_UPLINK.as_bytes()) {
        return None;
    }
    match utf8_text(payload) {
        Some(text) => Some(text),
        None => Some("<binary>"),
    }
}

/// The message that carries an uplink text into the mesh.
pub open spec fn uplink_message(id: u32, text: Seq<char>) -> MessageView {
    fresh_message(
        id,
        Transport::Mqtt,
        CARD_ADDR,
        BROADCAST_ADDR,
        MsgKind::Text,
        encode_utf8(text),
    )
}

/// Wrap an uplink text in a broadcast message and encode it, for the bridge to
/// take in like any other frame.
///
/// # Errors
/// [`ProtoError::PayloadTooLarge`] if the text is too long for a message.
pub fn handle_uplink_text(bridge: &mut Bridge, text: &str) -> (r: Result<RawFrame, ProtoError>)
    requires
        old(bridge).wf(),
    ensures
        final(bridge).wf(),
        final(bridge)@ == old(bridge)@.ids_taken(1),
        r is Ok <==> encode_utf8(text@).len() <= MAX_PAYLOAD,
        r is Ok ==> r->Ok_0.bytes@ == frame_bytes(uplink_message(old(bridge)@.next_id, text@)),
        r is Ok ==> r->Ok_0.source == Transport::Mqtt && r->Ok_0.bytes@ == frame_bytes(
            fresh_message(
                old(bridge)@.next_id,
                Transport::Mqtt,
                CARD_ADDR,
                BROADCAST_ADDR,
                MsgKind::Text,
                encode_utf8(text@),
            ),
        ),
        r is Err ==> r->Err_0 == ProtoError::PayloadTooLarge,
{
    let id = bridge.next_id();
    let msg = match Message::text(id, Transport::Mqtt, CARD_ADDR, text) {
        Ok(m) => m,
        Err(e) => return Err(e),
    };
    Ok(RawFrame { source: Transport::Mqtt, bytes: msg.to_frame() })
}

/// The body of the packet that publishes a mesh message to the MQTT world.
pub open spec fn downlink_body(m: MessageView) -> Seq<u8> {
    publish_body(TOPIC_DOWNLINK@, encode_utf8(body_of(m)))
}

/// The packet that publishes a mesh message to the MQTT world, as text. It
/// always fits.
pub fn downlink_packet<S>(client: &Mqtt311Client<S>, msg: &Message) -> (r: Result<
    BoundedVec<u8, OUT_BUF>,
    Mqtt311Error,
>)
    ensures
        r is Ok,
        r->Ok_0@ == packet_bytes(0x30, downlink_body(msg@)),
        r->Ok_0@ == packet_bytes(
            0x30,
            publish_body(TOPIC_DOWNLINK@, encode_utf8(body_of(msg@))),
        ),
{
    let len = msg.payload.len();
    let text = display_text(msg);
    proof {
        lemma_body_len(msg@);
        reveal_strlit("relaystar/downlink");
        assert(is_ascii_chars(TOPIC_DOWNLINK@));
        is_ascii_chars_encode_utf8(TOPIC_DOWNLINK@);
        lemma_short_lengths(publish_body(TOPIC_DOWNLINK@, encode_utf8(text@)).len());
    }
    client.publish(TOPIC_DOWNLINK, text.as_bytes())
}

/// The text of a message for people to read takes no more room than its
/// payload, or than the placeholder.
proof fn lemma_body_len(m: MessageView)
    requires
        m.valid(),
    ensures
        encode_utf8(body_of(m)).len() <= MAX_PAYLOAD,
{
    match text_of(m.payload) {
        Some(text) => law_text_round_trip(text, m.payload),
        None => {
            reveal_strlit("<binary>");
            assert(is_ascii_chars("<binary>"@));
            is_ascii_chars_encode_utf8("<binary>"@);
        },
    }
}

/// A text injected from the MQTT world is shown on the terminal and goes out
/// in full on LoRa and ESP-NOW, as a text from the terminal to every node, and
/// not back to MQTT.
pub proof fn law_uplink_reaches_mesh(v: RelayView, text: Seq<char>, t: Transport)
    requires
        v.self_addr == CARD_ADDR,
        encode_utf8(text).len() <= MAX_PAYLOAD,
        !v.seen.contains(v.next_id),
    ensures
        ({
            let m = uplink_message(v.next_id, text);
            let (_, routed) = route_frame(v.ids_taken(1), Transport::Mqtt, frame_bytes(m));
            &&& routed is Ok
            &&& routed->Ok_0.line == Some(line_of(m))
            &&& routed->Ok_0.line->0.origin == Transport::Mqtt
            &&& forall|i: int|
                0 <= i < routed->Ok_0.frames.len() ==> {
                    let frame = #[trigger] routed->Ok_0.frames[i];
                    &&& frame.transport != Transport::Mqtt
                    &&& frame.addr == FrameAddr::Broadcast
                    &&& frame.message.id == v.next_id
                    &&& frame.message.ttl == DEFAULT_TTL - 1
                    &&& frame.message.origin == Transport::Mqtt
                    &&& frame.message.from == CARD_ADDR
                    &&& frame.message.to == BROADCAST_ADDR
                    &&& frame.message.kind == MsgKind::Text
                }
            &&& t != Transport::Mqtt ==> concat_payloads(messages_on(routed->Ok_0.frames, t))
                == encode_utf8(text)
        }),
{
    let m = uplink_message(v.next_id, text);
    law_frame_round_trip(m);
    let before = v.ids_taken(1);
    let (after, _) = before.ingest_message(Transport::Mqtt, m, 16, 32);
    law_fanout(after, m, Transport::Mqtt, t);
}

/// The text of a mesh message is what its downlink packet publishes.
proof fn lemma_downlink_publishes(m: MessageView, text: Seq<char>)
    requires
        text_of(m.payload) == Some(text),
    ensures
        publication(0x30, downlink_body(m)) == Ok::<
            Option<(Seq<char>, Seq<u8>)>,
            Mqtt311Error,
        >(Some((TOPIC_DOWNLINK@, encode_utf8(text)))),
{
    reveal_strlit("relaystar/downlink");
    assert(is_ascii_chars(TOPIC_DOWNLINK@));
    is_ascii_chars_encode_utf8(TOPIC_DOWNLINK@);
    law_publication_round_trip(TOPIC_DOWNLINK@, encode_utf8(text));
}

/// A broadcast text that is complete when `x` arrives over LoRa or ESP-NOW,
/// whether `x` is the whole of it or the last of its slices, is shown on the
/// terminal and, with hops left, leads to exactly one frame for MQTT, whose
/// downlink packet publishes that text.
pub proof fn law_completed_text_reaches_mqtt(
    v: RelayView,
    source: Transport,
    x: MessageView,
    m: MessageView,
    text: Seq<char>,
)
    requires
        x.valid(),
        m.valid(),
        source != Transport::Mqtt,
        v.ingest_message(source, x, 16, 32).1 == IngestView::Complete(m),
        m.to == BROADCAST_ADDR,
        m.ttl > 0,
        text_of(m.payload) == Some(text),
    ensures
        ({
            let (_, routed) = route_frame(v, source, frame_bytes(x));
            let frames = messages_on(routed->Ok_0.frames, Transport::Mqtt);
            &&& routed is Ok
            &&& routed->Ok_0.line == Some(line_of(m))
            &&& frames == seq![m.relayed()->0]
            &&& publication(0x30, downlink_body(frames[0])) == Ok::<
                Option<(Seq<char>, Seq<u8>)>,
                Mqtt311Error,
            >(Some((TOPIC_DOWNLINK@, encode_utf8(text))))
        }),
{
    law_frame_round_trip(x);
    let (after, _) = v.ingest_message(source, x, 16, 32);
    law_fanout_to_mqtt(after, m, source);
    lemma_downlink_publishes(m.relayed()->0, text);
}

/// A broadcast text that arrives over LoRa or ESP-NOW in one frame, new and
/// with hops left, leads to exactly one frame for MQTT, whose downlink packet
/// publishes that text.
pub proof fn law_broadcast_text_reaches_mqtt(
    v: RelayView,
    source: Transport,
    m: MessageView,
    text: Seq<char>,
)
    requires
        m.valid(),
        m.frag is None,
        source != Transport::Mqtt,
        !v.seen.contains(m.id),
        m.to == BROADCAST_ADDR,
        m.ttl > 0,
        text_of(m.payload) == Some(text),
    ensures
        ({
            let (_, routed) = route_frame(v, source, frame_bytes(m));
            let frames = messages_on(routed->Ok_0.frames, Transport::Mqtt);
            &&& routed is Ok
            &&& routed->Ok_0.line == Some(line_of(m))
            &&& frames == seq![m.relayed()->0]
            &&& publication(0x30, downlink_body(frames[0])) == Ok::<
                Option<(Seq<char>, Seq<u8>)>,
                Mqtt311Error,
            >(Some((TOPIC_DOWNLINK@, encode_utf8(text))))
        }),
{
    law_completed_text_reaches_mqtt(v, source, m, m, text);
}

/// What the terminal publishes, it does not take back in when the broker
/// echoes it: there are no loops through the broker.
pub proof fn law_no_echo_through_broker(m: MessageView)
    requires
        m.valid(),
    ensures
        ({
            publication(0x30, downlink_body(m)) matches Ok(Some((topic, payload))) && uplink_text_of(
                topic,
                payload,
            ) is None
        }),
{
    reveal_strlit("relaystar/downlink");
    reveal_strlit("relaystar/uplink");
    assert(is_ascii_chars(TOPIC_DOWNLINK@));
    is_ascii_chars_encode_utf8(TOPIC_DOWNLINK@);
    assert(TOPIC_DOWNLINK@.len() != TOPIC_UPLINK@.len());
    law_publication_round_trip(TOPIC_DOWNLINK@, encode_utf8(body_of(m)));
}

/// What anyone publishes on the uplink topic is what the terminal takes in, if
/// it is text.
pub proof fn law_uplink_takes_text(text: Seq<char>)
    ensures
        publication(0x30, publish_body(TOPIC_UPLINK@, encode_utf8(text))) matches Ok(
            Some((topic, payload)),
        ) && uplink_text_of(topic, payload) == Some(text),
{
    reveal_strlit("relaystar/uplink");
    assert(is_ascii_chars(TOPIC_UPLINK@));
    is_ascii_chars_encode_utf8(TOPIC_UPLINK@);
    law_publication_round_trip(TOPIC_UPLINK@, encode_utf8(text));
    law_text_round_trip(text, encode_utf8(text));
}

/// Only what is published on the uplink topic is taken in; what is no text is
/// taken in as a placeholder.
pub proof fn law_uplink_topic(topic: Seq<char>, payload: Seq<u8>)
    ensures
        uplink_text_of(topic, payload) is Some <==> topic == TOPIC_UPLINK@,
        topic == TOPIC_UPLINK@ && (forall|text: Seq<char>|
            payload != #[trigger] encode_utf8(text)) ==> uplink_text_of(topic, payload) == Some(
            "<binary>"@,
        ),
{
    if let Some(text) = text_of(payload) {
        law_text_round_trip(text, payload);
        assert(payload == encode_utf8(text));
    }
}

// ---------------------------------------------------------------------------
// Reading numbers and addresses
// ---------------------------------------------------------------------------

/// The bytes of decimal digits make the number that the digits stand for.
proof fn lemma_digit_bytes(text: Seq<char>)
    requires
        forall|i: int| 0 <= i < text.len() ==> '0' <= #[trigger] text[i] <= '9',
    ensures
        encode_utf8(text).len() == text.len(),
        all_digits(encode_utf8(text)),
        digits_value(encode_utf8(text)) == number_in(text),
    decreases text.len(),
{
    assert(is_ascii_chars(text));
    is_ascii_chars_encode_utf8(text);
    if text.len() > 0 {
        let front = text.drop_last();
        lemma_digit_bytes(front);
        assert(is_ascii_chars(front));
        is_ascii_chars_encode_utf8(front);
        assert(encode_utf8(text).drop_last() =~= encode_utf8(front));
    }
}

/// The decimal digits of a number stand for that number, unless it is too
/// large.
pub proof fn law_number(n: nat, max: nat)
    ensures
        number_of(encode_utf8(decimal(n)), max) == if n <= max {
            Some(n)
        } else {
            None
        },
{
    law_decimal(n);
    lemma_digit_bytes(decimal(n));
}

/// A plus sign or a zero in front of a number makes no difference. What has
/// anything but digits behind an optional plus sign is no number, and neither is
/// a text without digits.
pub proof fn law_number_forms(b: Seq<u8>, max: nat)
    ensures
        b.len() > 0 && b[0] != 0x2B ==> number_of(seq![0x2Bu8] + b, max) == number_of(b, max),
        b.len() > 0 && b[0] != 0x2B ==> number_of(seq![0x30u8] + b, max) == number_of(b, max),
        number_of(b, max) is Some ==> b.len() > 0 && forall|i: int|
            0 <= i < b.len() ==> 0x30 <= #[trigger] b[i] <= 0x39 || (i == 0 && b[i] == 0x2B
                && b.len() > 1),
{
    assert((seq![0x2Bu8] + b).skip(1) =~= b);
    let padded = seq![0x30u8] + b;
    if b.len() > 0 && b[0] != 0x2B {
        lemma_leading_zero(b);
        if all_digits(b) {
            assert forall|i: int| 0 <= i < padded.len() implies 0x30 <= #[trigger] padded[i]
                <= 0x39 by {
                if i > 0 {
                    assert(padded[i] == b[i - 1]);
                }
            }
        } else {
            let i = choose|i: int| 0 <= i < b.len() && !(0x30 <= #[trigger] b[i] <= 0x39);
            assert(padded[i + 1] == b[i]);
        }
    }
    if number_of(b, max) is Some {
        let digits = unsigned(b);
        assert forall|i: int| 0 <= i < b.len() implies 0x30 <= #[trigger] b[i] <= 0x39 || (i == 0
            && b[i] == 0x2B && b.len() > 1) by {
            if b[0] == 0x2B {
                if i > 0 {
                    assert(digits[i - 1] == b[i]);
                }
            } else {
                assert(digits[i] == b[i]);
            }
        }
    }
}

proof fn lemma_leading_zero(b: Seq<u8>)
    ensures
        digits_value(seq![0x30u8] + b) == digits_value(b),
    decreases b.len(),
{
    let padded = seq![0x30u8] + b;
    if b.len() == 0 {
        assert(padded.drop_last() =~= Seq::empty());
        reveal_with_fuel(digits_value, 2);
    } else {
        lemma_leading_zero(b.drop_last());
        assert(padded.drop_last() =~= seq![0x30u8] + b.drop_last());
    }
}

/// Every port can be configured by its number; what is no port leaves the usual
/// one.
pub proof fn law_broker_port(n: nat, text: Seq<char>)
    ensures
        n <= 65535 ==> port_of(decimal(n)) == n,
        n > 65535 ==> port_of(decimal(n)) == DEFAULT_PORT,
        number_of(encode_utf8(text), 65535) is None ==> port_of(text) == DEFAULT_PORT,
        number_of(encode_utf8(text), 65535) matches Some(p) ==> port_of(text) == p,
{
    law_number(n, 0xFFFF);
}

/// A text without dots is its only part; behind a dot a new part starts.
proof fn lemma_split_join(front: Seq<u8>, part: Seq<u8>)
    requires
        forall|i: int| 0 <= i < part.len() ==> #[trigger] part[i] != 0x2E,
    ensures
        split_dots(part) == seq![part],
        split_dots(front.push(0x2E) + part) == split_dots(front).push(part),
    decreases part.len(),
{
    let all = front.push(0x2E) + part;
    if part.len() == 0 {
        assert(all =~= front.push(0x2E));
        assert(all.drop_last() =~= front);
        assert(part =~= Seq::empty());
    } else {
        let before = part.drop_last();
        assert forall|i: int| 0 <= i < before.len() implies #[trigger] before[i] != 0x2E by {
            assert(before[i] == part[i]);
        }
        lemma_split_join(front, before);
        assert(part[part.len() - 1] != 0x2E);
        assert(all.drop_last() =~= front.push(0x2E) + before);
        assert(all.last() == part.last());
        assert(before.push(part.last()) =~= part);
        assert(split_dots(part) =~= seq![part]);
        assert(split_dots(all) =~= split_dots(front).push(part));
    }
}

/// Four texts without dots, with dots between them.
pub open spec fn dotted(a: Seq<u8>, b: Seq<u8>, c: Seq<u8>, d: Seq<u8>) -> Seq<u8> {
    ((a.push(0x2E) + b).push(0x2E) + c).push(0x2E) + d
}

/// Four texts with dots between them are an address exactly if each is a number
/// up to 255, and the address is those numbers in order.
pub proof fn law_ipv4(a: Seq<u8>, b: Seq<u8>, c: Seq<u8>, d: Seq<u8>)
    requires
        forall|i: int| 0 <= i < a.len() ==> #[trigger] a[i] != 0x2E,
        forall|i: int| 0 <= i < b.len() ==> #[trigger] b[i] != 0x2E,
        forall|i: int| 0 <= i < c.len() ==> #[trigger] c[i] != 0x2E,
        forall|i: int| 0 <= i < d.len() ==> #[trigger] d[i] != 0x2E,
    ensures
        match (number_of(a, 255), number_of(b, 255), number_of(c, 255), number_of(d, 255)) {
            (Some(p), Some(q), Some(r), Some(s)) => {
                &&& ipv4_of(dotted(a, b, c, d)) is Some
                &&& ipv4_of(dotted(a, b, c, d))->0@ == seq![p as u8, q as u8, r as u8, s as u8]
            },
            _ => ipv4_of(dotted(a, b, c, d)) is None,
        },
{
    let ab = a.push(0x2E) + b;
    let abc = ab.push(0x2E) + c;
    lemma_split_join(Seq::empty(), a);
    lemma_split_join(a, b);
    lemma_split_join(ab, c);
    lemma_split_join(abc, d);
    let parts = split_dots(dotted(a, b, c, d));
    assert(parts =~= seq![a, b, c, d]);
    assert(parts[0] == a && parts[1] == b && parts[2] == c && parts[3] == d);
    if let Some(addr) = ipv4_of(dotted(a, b, c, d)) {
        assert(number_of(parts[0], 255) is Some);
        assert(number_of(parts[1], 255) is Some);
        assert(number_of(parts[2], 255) is Some);
        assert(number_of(parts[3], 255) is Some);
        assert(addr@ =~= seq![
            number_of(a, 255)->0 as u8,
            number_of(b, 255)->0 as u8,
            number_of(c, 255)->0 as u8,
            number_of(d, 255)->0 as u8,
        ]);
    }
}

/// How many dots there are.
pub open spec fn dots(b: Seq<u8>) -> nat
    decreases b.len(),
{
    if b.len() == 0 {
        0
    } else {
        dots(b.drop_last()) + if b.last() == 0x2E {
            1nat
        } else {
            0
        }
    }
}

/// A text with more or fewer dots than three is no address.
pub proof fn law_ipv4_has_three_dots(b: Seq<u8>)
    ensures
        ipv4_of(b) is Some ==> dots(b) == 3,
{
    lemma_split_count(b);
}

proof fn lemma_split_count(b: Seq<u8>)
    ensures
        split_dots(b).len() == dots(b) + 1,
    decreases b.len(),
{
    if b.len() > 0 {
        lemma_split_count(b.drop_last());
    }
}

// ---------------------------------------------------------------------------
// The link
// ---------------------------------------------------------------------------

/// The link after several steps succeeded or failed.
pub open spec fn link_after(state: LinkState, steps: Seq<bool>) -> LinkState
    decreases steps.len(),
{
    if steps.len() == 0 {
        state
    } else {
        link_move(link_after(state, steps.drop_last()), steps.last()).state
    }
}

/// Whatever happened before, a failure starts the connection over, and three
/// successes in a row make it steady. It stays steady until something fails.
pub proof fn law_link_recovers(state: LinkState, steps: Seq<bool>)
    ensures
        steps.len() > 0 && !steps.last() ==> link_after(state, steps) == LinkState::Tcp,
        steps.len() >= 3 && steps[steps.len() - 1] && steps[steps.len() - 2] && steps[steps.len()
            - 3] ==> link_after(state, steps) == LinkState::Steady,
        link_after(state, steps) == LinkState::Steady ==> link_after(state, steps.push(true))
            == LinkState::Steady,
{
    assert(steps.push(true).drop_last() =~= steps);
    if steps.len() >= 3 {
        let two = steps.drop_last();
        let one = two.drop_last();
        assert(two.last() == steps[steps.len() - 2]);
        assert(one.last() == steps[steps.len() - 3]);
        reveal_with_fuel(link_after, 4);
    }
}

/// There is a wait exactly before an attempt that follows a failed one.
pub proof fn law_link_waits(state: LinkState, ok: bool)
    ensures
        link_move(state, ok).wait_secs > 0 <==> !ok && state != LinkState::Steady,
        link_move(state, ok).wait_secs > 0 ==> link_move(state, ok).wait_secs == BACKOFF_SECS,
{
}

} // verus!
