//! The shared wire protocol: the [`Message`] that travels across every
//! transport, its framing, and the hop budget that ends its travels.

use crate::bounded::{bytes_eq, BoundedVec};
use crate::text::{text_of, utf8_text};
use crate::wire::{
    from_bytes, lemma_record_len, lemma_record_round_trip, parse_record, partly_written,
    record_bytes, to_slice, varint, Fields, Record,
};
use vstd::prelude::*;
use vstd::utf8::encode_utf8;

verus! {

/// Maximum application payload carried in a single [`Message`].
///
/// Sized to comfortably fit inside a LoRa frame (about 255 bytes) together
/// with the header.
pub const MAX_PAYLOAD: usize = 200;

/// Upper bound for an encoded frame. Encoding into a buffer of this size
/// never fails.
pub const MAX_FRAME: usize = 255;

/// Default hop budget assigned to freshly-created messages.
pub const DEFAULT_TTL: u8 = 4;

/// The destination address that means every node.
pub const BROADCAST_ADDR: [u8; 6] = [0xFF, 0xFF, 0xFF, 0xFF, 0xFF, 0xFF];


/// The physical transport a message was seen on or should be sent over.
#[derive(Debug, Clone, Copy, PartialEq, Eq, Hash, Structural)]
pub enum Transport {
    Lora,
    Mqtt,
    EspNow,
}

impl Transport {
    /// All transports, useful for fan-out iteration.
    pub const ALL: [Transport; 3] = [Transport::Lora, Transport::Mqtt, Transport::EspNow];

    /// The name of the transport, in words.
    pub open spec fn name(self) -> Seq<char> {
        match self {
            Transport::Lora => "lora"@,
            Transport::Mqtt => "mqtt"@,
            Transport::EspNow => "espnow"@,
        }
    }

    /// The name of the transport.
    pub fn as_str(self) -> (s: &'static str)
        ensures
            s@ == self.name(),
    {
        match self {
            Transport::Lora => "lora",
            Transport::Mqtt => "mqtt",
            Transport::EspNow => "espnow",
        }
    }

    /// The position of the transport in [`Transport::ALL`], which stands for
    /// it in a frame.
    pub open spec fn index_spec(self) -> u32 {
        match self {
            Transport::Lora => 0,
            Transport::Mqtt => 1,
            Transport::EspNow => 2,
        }
    }

    /// The position of the transport in [`Transport::ALL`].
    pub fn index(self) -> (i: u32)
        ensures
            i == self.index_spec(),
            i < 3,
            Transport::ALL@[i as int] == self,
    {
        match self {
            Transport::Lora => 0,
            Transport::Mqtt => 1,
            Transport::EspNow => 2,
        }
    }

    /// The most payload bytes that fit into one frame on this transport.
    pub open spec fn max_payload_spec(self) -> usize {
        match self {
            Transport::Lora => 180,
            Transport::Mqtt => 4096,
            Transport::EspNow => 200,
        }
    }

    /// The most payload bytes that fit into one frame on this transport.
    pub fn max_payload(self) -> (n: usize)
        ensures
            n == self.max_payload_spec(),
    {
        match self {
            Transport::Lora => 180,
            Transport::Mqtt => 4096,
            Transport::EspNow => 200,
        }
    }
}

/// The transport at a position of [`Transport::ALL`].
pub open spec fn transport_at(i: u32) -> Option<Transport> {
    if i < 3 {
        Some(Transport::ALL@[i as int])
    } else {
        None
    }
}

/// Semantic type of a message payload.
#[derive(Debug, Clone, Copy, PartialEq, Eq, Structural)]
pub enum MsgKind {
    /// UTF-8 chat or text payload.
    Text,
    /// Liveness probe.
    Ping,
    /// Reply to a [`MsgKind::Ping`].
    Pong,
    /// Opaque binary telemetry.
    Telemetry,
}

impl MsgKind {
    /// The number that stands for the kind in a frame.
    pub open spec fn index_spec(self) -> u32 {
        match self {
            MsgKind::Text => 0,
            MsgKind::Ping => 1,
            MsgKind::Pong => 2,
            MsgKind::Telemetry => 3,
        }
    }

    /// The number that stands for the kind in a frame.
    pub fn index(self) -> (i: u32)
        ensures
            i == self.index_spec(),
    {
        match self {
            MsgKind::Text => 0,
            MsgKind::Ping => 1,
            MsgKind::Pong => 2,
            MsgKind::Telemetry => 3,
        }
    }
}

/// The kind that a number stands for in a frame.
pub open spec fn kind_at(i: u32) -> Option<MsgKind> {
    match i {
        0 => Some(MsgKind::Text),
        1 => Some(MsgKind::Ping),
        2 => Some(MsgKind::Pong),
        3 => Some(MsgKind::Telemetry),
        _ => None,
    }
}

/// Header of one slice of a message that was cut into several frames.
#[derive(Debug, Clone, Copy, PartialEq, Eq, Structural)]
pub struct Fragment {
    /// Shared by all slices of one message.
    pub group_id: u32,
    /// Position of this slice, from 0.
    pub seq: u16,
    /// Number of slices in the group.
    pub total: u16,
}

/// A transport-agnostic RelayStar message.
pub struct Message {
    /// Globally-unique-ish id used for de-duplication across the mesh.
    pub id: u32,
    /// Remaining hop budget. Decremented on each relay; dropped at 0.
    pub ttl: u8,
    /// Transport the message originally entered the mesh on.
    pub origin: Transport,
    /// Source node address (MAC for ESP-NOW and Wi-Fi, synthetic otherwise).
    pub from: [u8; 6],
    /// Destination node address, or [`BROADCAST_ADDR`].
    pub to: [u8; 6],
    /// Payload interpretation hint.
    pub kind: MsgKind,
    /// Application payload bytes.
    pub payload: BoundedVec<u8, MAX_PAYLOAD>,
    /// Present when this message is one slice of a larger one.
    pub frag: Option<Fragment>,
}

/// What a message says.
#[verifier::ext_equal]
pub struct MessageView {
    pub id: u32,
    pub ttl: u8,
    pub origin: Transport,
    pub from: [u8; 6],
    pub to: [u8; 6],
    pub kind: MsgKind,
    pub payload: Seq<u8>,
    pub frag: Option<Fragment>,
}

impl View for Message {
    type V = MessageView;

    open spec fn view(&self) -> MessageView {
        MessageView {
            id: self.id,
            ttl: self.ttl,
            origin: self.origin,
            from: self.from,
            to: self.to,
            kind: self.kind,
            payload: self.payload@,
            frag: self.frag,
        }
    }
}

impl MessageView {
    /// Whether the payload is one that a [`Message`] can carry.
    pub open spec fn valid(self) -> bool {
        self.payload.len() <= MAX_PAYLOAD
    }

    /// The same message with another hop budget.
    pub open spec fn with_ttl(self, ttl: u8) -> MessageView {
        MessageView { ttl, ..self }
    }

    /// The message to forward onto another transport: one hop less, or nothing
    /// once the budget is spent.
    pub open spec fn relayed(self) -> Option<MessageView> {
        if self.ttl == 0 {
            None
        } else {
            Some(self.with_ttl((self.ttl - 1) as u8))
        }
    }

    /// The message after `hops` relays, if its budget lasts that long.
    pub open spec fn relayed_times(self, hops: nat) -> Option<MessageView>
        decreases hops,
    {
        if hops == 0 {
            Some(self)
        } else {
            match self.relayed() {
                None => None,
                Some(m) => m.relayed_times((hops - 1) as nat),
            }
        }
    }
}

/// A message as it is built: full hop budget, no fragment header.
pub open spec fn fresh_message(
    id: u32,
    origin: Transport,
    from: [u8; 6],
    to: [u8; 6],
    kind: MsgKind,
    payload: Seq<u8>,
) -> MessageView {
    MessageView { id, ttl: DEFAULT_TTL, origin, from, to, kind, payload, frag: None }
}

/// The record that stands for a message in a frame.
pub open spec fn record_of_message(m: MessageView) -> Record {
    Record {
        id: m.id,
        ttl: m.ttl,
        origin: m.origin.index_spec(),
        from: m.from,
        to: m.to,
        kind: m.kind.index_spec(),
        payload: m.payload,
        frag: match m.frag {
            None => None,
            Some(f) => Some((f.group_id, f.seq, f.total)),
        },
    }
}

/// The message that a record stands for: its origin and kind must exist, and
/// its payload must not be too long.
pub open spec fn message_of_record(r: Record) -> Option<MessageView> {
    match (transport_at(r.origin), kind_at(r.kind)) {
        (Some(origin), Some(kind)) => if r.payload.len() <= MAX_PAYLOAD {
            Some(
                MessageView {
                    id: r.id,
                    ttl: r.ttl,
                    origin,
                    from: r.from,
                    to: r.to,
                    kind,
                    payload: r.payload,
                    frag: match r.frag {
                        None => None,
                        Some(f) => Some(Fragment { group_id: f.0, seq: f.1, total: f.2 }),
                    },
                },
            )
        } else {
            None
        },
        _ => None,
    }
}

/// The bytes of a message on the wire.
pub open spec fn frame_bytes(m: MessageView) -> Seq<u8> {
    record_bytes(record_of_message(m))
}

/// The message that the bytes of a frame hold, if they hold one.
pub open spec fn parse_message(bytes: Seq<u8>) -> Option<MessageView> {
    match parse_record(bytes) {
        None => None,
        Some(r) => message_of_record(r),
    }
}

/// Errors produced while building, encoding or decoding a [`Message`].
#[derive(Debug, Clone, Copy, PartialEq, Eq, Structural)]
pub enum ProtoError {
    /// The payload exceeded [`MAX_PAYLOAD`].
    PayloadTooLarge,
    /// The provided buffer was too small to hold the encoded frame.
    BufferTooSmall,
    /// The bytes could not be decoded into a [`Message`].
    Decode,
}

impl ProtoError {
    /// What went wrong, in words.
    pub open spec fn describes(self) -> Seq<char> {
        match self {
            ProtoError::PayloadTooLarge => "payload too large"@,
            ProtoError::BufferTooSmall => "buffer too small"@,
            ProtoError::Decode => "decode error"@,
        }
    }

    /// What went wrong, in words.
    pub fn describe(&self) -> (s: &'static str)
        ensures
            s@ == self.describes(),
    {
        match self {
            ProtoError::PayloadTooLarge => "payload too large",
            ProtoError::BufferTooSmall => "buffer too small",
            ProtoError::Decode => "decode error",
        }
    }
}

/// Whether two addresses are the same.
pub fn addr_eq(a: &[u8; 6], b: &[u8; 6]) -> (r: bool)
    ensures
        r == (*a == *b),
{
    let mut i: usize = 0;
    while i < 6
        invariant
            i <= 6,
            forall|j: int| 0 <= j < i ==> a@[j] == b@[j],
        decreases 6 - i,
    {
        if a[i] != b[i] {
            return false;
        }
        i += 1;
    }
    assert(*a =~= *b);
    true
}

impl Clone for Message {
    fn clone(&self) -> (r: Self)
        ensures
            r@ == self@,
    {
        Message {
            id: self.id,
            ttl: self.ttl,
            origin: self.origin,
            from: self.from,
            to: self.to,
            kind: self.kind,
            payload: self.payload.clone(),
            frag: self.frag,
        }
    }
}

impl PartialEq for Message {
    fn eq(&self, other: &Self) -> (r: bool) {
        let same_frag = match (self.frag, other.frag) {
            (None, None) => true,
            (Some(a), Some(b)) => a == b,
            _ => false,
        };
        self.id == other.id && self.ttl == other.ttl && self.origin == other.origin && addr_eq(
            &self.from,
            &other.from,
        ) && addr_eq(&self.to, &other.to) && self.kind == other.kind && bytes_eq(
            self.payload.as_slice(),
            other.payload.as_slice(),
        ) && same_frag
    }
}

impl vstd::std_specs::cmp::PartialEqSpecImpl for Message {
    open spec fn obeys_eq_spec() -> bool {
        true
    }

    open spec fn eq_spec(&self, other: &Self) -> bool {
        self@ == other@
    }
}

impl Eq for Message {

}

impl Message {
    /// Build a new message to every node with [`DEFAULT_TTL`] from a byte
    /// payload.
    pub fn new(
        id: u32,
        origin: Transport,
        from: [u8; 6],
        kind: MsgKind,
        payload: &[u8],
    ) -> (r: Result<Message, ProtoError>)
        ensures
            r is Ok <==> payload@.len() <= MAX_PAYLOAD,
            r is Ok ==> r->Ok_0@ == fresh_message(id, origin, from, BROADCAST_ADDR, kind, payload@),
            r is Err ==> r->Err_0 == ProtoError::PayloadTooLarge,
    {
        Self::unicast(id, origin, from, BROADCAST_ADDR, kind, payload)
    }

    /// Build a new message to one node with [`DEFAULT_TTL`] from a byte
    /// payload.
    pub fn unicast(
        id: u32,
        origin: Transport,
        from: [u8; 6],
        to: [u8; 6],
        kind: MsgKind,
        payload: &[u8],
    ) -> (r: Result<Message, ProtoError>)
        ensures
            r is Ok <==> payload@.len() <= MAX_PAYLOAD,
            r is Ok ==> r->Ok_0@ == fresh_message(id, origin, from, to, kind, payload@),
            r is Err ==> r->Err_0 == ProtoError::PayloadTooLarge,
    {
        match BoundedVec::from_slice(payload) {
            Ok(payload) => Ok(
                Message { id, ttl: DEFAULT_TTL, origin, from, to, kind, payload, frag: None },
            ),
            Err(_) => Err(ProtoError::PayloadTooLarge),
        }
    }

    /// Convenience constructor for a UTF-8 text message to every node.
    pub fn text(id: u32, origin: Transport, from: [u8; 6], text: &str) -> (r: Result<
        Message,
        ProtoError,
    >)
        ensures
            r is Ok <==> encode_utf8(text@).len() <= MAX_PAYLOAD,
            r is Ok ==> r->Ok_0@ == fresh_message(
                id,
                origin,
                from,
                BROADCAST_ADDR,
                MsgKind::Text,
                encode_utf8(text@),
            ),
            r is Err ==> r->Err_0 == ProtoError::PayloadTooLarge,
    {
        Self::new(id, origin, from, MsgKind::Text, text.as_bytes())
    }

    /// Interpret the payload as UTF-8 text, if valid.
    pub fn as_text(&self) -> (r: Option<&str>)
        ensures
            r is Some <==> text_of(self@.payload) is Some,
            r is Some ==> Some(r->0@) == text_of(self@.payload),
    {
        utf8_text(self.payload.as_slice())
    }

    /// Whether the message is for every node.
    pub fn is_broadcast(&self) -> (r: bool)
        ensures
            r == (self@.to == BROADCAST_ADDR),
    {
        addr_eq(&self.to, &BROADCAST_ADDR)
    }

    /// Encode into `buf`, returning the populated slice. A buffer of
    /// [`MAX_FRAME`] bytes is always large enough. A failed call may have
    /// written the front of the frame.
    pub fn encode<'a>(&self, buf: &'a mut [u8]) -> (r: Result<&'a mut [u8], ProtoError>)
        ensures
            r is Ok <==> frame_bytes(self@).len() <= old(buf)@.len(),
            r is Ok ==> r->Ok_0@ == frame_bytes(self@),
            r is Ok ==> final(buf)@ == final(r->Ok_0)@ + old(buf)@.skip(
                frame_bytes(self@).len() as int,
            ),
            r is Err ==> r->Err_0 == ProtoError::BufferTooSmall && partly_written(
                old(buf)@,
                final(buf)@,
                frame_bytes(self@),
            ),
            final(buf)@.len() == old(buf)@.len(),
            self@.valid(),
            frame_bytes(self@).len() <= MAX_FRAME,
    {
        let frag: Option<(u32, u16, u16)> = match self.frag {
            None => None,
            Some(f) => Some((f.group_id, f.seq, f.total)),
        };
        let fields: Fields<'_> = (
            self.id,
            self.ttl,
            self.origin.index(),
            self.from,
            self.to,
            self.kind.index(),
            self.payload.as_slice(),
            frag,
        );
        proof {
            lemma_record_len(record_of_message(self@));
        }
        match to_slice(&fields, buf) {
            Ok(out) => Ok(out),
            Err(_) => Err(ProtoError::BufferTooSmall),
        }
    }

    /// The frame of the message. It never takes more than [`MAX_FRAME`] bytes.
    pub fn to_frame(&self) -> (frame: BoundedVec<u8, MAX_FRAME>)
        ensures
            frame@ == frame_bytes(self@),
    {
        let mut buf: [u8; MAX_FRAME] = [0; MAX_FRAME];
        match self.encode(&mut buf) {
            Ok(bytes) => match BoundedVec::from_slice(bytes) {
                Ok(frame) => frame,
                Err(_) => BoundedVec::new(),
            },
            Err(_) => BoundedVec::new(),
        }
    }

    /// Decode a message from its wire bytes.
    pub fn decode(bytes: &[u8]) -> (r: Result<Message, ProtoError>)
        ensures
            r is Ok <==> parse_message(bytes@) is Some,
            r is Ok ==> Some(r->Ok_0@) == parse_message(bytes@),
            r is Err ==> r->Err_0 == ProtoError::Decode,
    {
        let f = match from_bytes(bytes) {
            Ok(f) => f,
            Err(_) => return Err(ProtoError::Decode),
        };
        if f.2 >= 3 {
            return Err(ProtoError::Decode);
        }
        let origin = Transport::ALL[f.2 as usize];
        let kind = match f.5 {
            0 => MsgKind::Text,
            1 => MsgKind::Ping,
            2 => MsgKind::Pong,
            3 => MsgKind::Telemetry,
            _ => return Err(ProtoError::Decode),
        };
        let payload = match BoundedVec::from_slice(f.6) {
            Ok(p) => p,
            Err(_) => return Err(ProtoError::Decode),
        };
        let frag: Option<Fragment> = match f.7 {
            None => None,
            Some(h) => Some(Fragment { group_id: h.0, seq: h.1, total: h.2 }),
        };
        Ok(Message { id: f.0, ttl: f.1, origin, from: f.3, to: f.4, kind, payload, frag })
    }

    /// Produce the version of this message to forward onto another transport,
    /// decrementing the hop budget. Returns `None` once the budget is spent.
    pub fn prepared_for_relay(&self) -> (r: Option<Message>)
        ensures
            r is Some <==> self@.ttl > 0,
            r is Some ==> Some(r->0@) == self@.relayed(),
    {
        if self.ttl == 0 {
            return None;
        }
        let mut relayed = self.clone();
        relayed.ttl -= 1;
        Some(relayed)
    }
}

/// Decoding an encoded message gives the message back, and its frame is never
/// longer than [`MAX_FRAME`].
pub proof fn law_frame_round_trip(m: MessageView)
    requires
        m.valid(),
    ensures
        parse_message(frame_bytes(m)) == Some(m),
        frame_bytes(m).len() <= MAX_FRAME,
{
    lemma_record_round_trip(record_of_message(m));
    lemma_record_len(record_of_message(m));
}

/// Different messages have different frames.
pub proof fn law_frames_differ(a: MessageView, b: MessageView)
    requires
        a.valid(),
        b.valid(),
        frame_bytes(a) == frame_bytes(b),
    ensures
        a == b,
{
    law_frame_round_trip(a);
    law_frame_round_trip(b);
}

/// What decodes is a message that can be encoded again.
pub proof fn law_decoded_is_valid(bytes: Seq<u8>)
    ensures
        parse_message(bytes) matches Some(m) ==> m.valid() && parse_message(frame_bytes(m)) == Some(
            m,
        ),
{
    if let Some(m) = parse_message(bytes) {
        law_frame_round_trip(m);
    }
}

/// A message can be relayed as many times as its hop budget says and no more;
/// only the budget changes on the way.
pub proof fn law_hop_budget(m: MessageView, hops: nat)
    ensures
        m.relayed_times(hops) is Some <==> hops <= m.ttl,
        hops <= m.ttl ==> m.relayed_times(hops) == Some(m.with_ttl((m.ttl - hops) as u8)),
    decreases hops,
{
    if hops > 0 && m.ttl > 0 {
        let next = m.with_ttl((m.ttl - 1) as u8);
        law_hop_budget(next, (hops - 1) as nat);
    }
}

/// What a frame is made of, front to back: the id, the hop budget, the origin,
/// the source, the destination, the kind, the payload behind its length, and
/// the fragment header behind a mark that says whether there is one.
pub proof fn law_frame_layout(m: MessageView)
    ensures
        frame_bytes(m) == varint(m.id as nat) + seq![
            m.ttl,
            match m.origin {
                Transport::Lora => 0u8,
                Transport::Mqtt => 1,
                Transport::EspNow => 2,
            },
        ] + m.from@ + m.to@ + seq![
            match m.kind {
                MsgKind::Text => 0u8,
                MsgKind::Ping => 1,
                MsgKind::Pong => 2,
                MsgKind::Telemetry => 3,
            },
        ] + varint(m.payload.len()) + m.payload + match m.frag {
            None => seq![0u8],
            Some(f) => seq![1u8] + varint(f.group_id as nat) + varint(f.seq as nat) + varint(
                f.total as nat,
            ),
        },
{
    let origin = m.origin.index_spec();
    let kind = m.kind.index_spec();
    assert(varint(origin as nat) == seq![origin as u8]);
    assert(varint(kind as nat) == seq![kind as u8]);
    assert(varint(m.id as nat) + seq![m.ttl] + seq![origin as u8] =~= varint(m.id as nat) + seq![
        m.ttl,
        origin as u8,
    ]);
}

/// Bytes hold a message exactly if they hold a record with an origin and a kind
/// that exist and a payload that is not too long, and that record is the one of
/// the message.
pub proof fn law_decoding(bytes: Seq<u8>)
    ensures
        parse_message(bytes) is Some <==> (parse_record(bytes) matches Some(r) && r.origin < 3
            && r.kind < 4 && r.payload.len() <= 200),
        parse_message(bytes) matches Some(m) ==> parse_record(bytes) == Some(record_of_message(m)),
{
    if let Some(r) = parse_record(bytes) {
        if let Some(m) = message_of_record(r) {
            let back = record_of_message(m);
            assert(back.frag == r.frag);
            assert(back == r);
        }
    }
}

/// What is built is what was asked for: a message with the full hop budget that
/// is no slice.
pub proof fn law_fresh_message(
    id: u32,
    origin: Transport,
    from: [u8; 6],
    to: [u8; 6],
    kind: MsgKind,
    payload: Seq<u8>,
)
    ensures
        ({
            let m = fresh_message(id, origin, from, to, kind, payload);
            &&& m.id == id
            &&& m.ttl == DEFAULT_TTL
            &&& m.origin == origin
            &&& m.from == from
            &&& m.to == to
            &&& m.kind == kind
            &&& m.payload == payload
            &&& m.frag is None
        }),
{
}

/// Relaying takes one hop and leaves everything else; without hops left there
/// is nothing to relay.
pub proof fn law_relayed(m: MessageView)
    ensures
        m.relayed() is None <==> m.ttl == 0,
        m.relayed() matches Some(r) ==> {
            &&& r.ttl == m.ttl - 1
            &&& r.id == m.id
            &&& r.origin == m.origin
            &&& r.from == m.from
            &&& r.to == m.to
            &&& r.kind == m.kind
            &&& r.payload == m.payload
            &&& r.frag == m.frag
        },
{
}

} // verus!
