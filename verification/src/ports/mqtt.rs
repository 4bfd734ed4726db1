//! MQTT transport adapter.
//!
//! MQTT has no addresses of its own, so the adapter puts them into topics:
//! broadcasts go to `relaystar/b`, a unicast to `AA:BB:CC:DD:EE:FF` goes to
//! `relaystar/u/aabbccddeeff`.
//!
//! [`Mqtt311Client`] is a small MQTT 3.1.1 client at QoS 0: it builds the
//! packets to write and makes sense of the packets read. It supports exactly
//! CONNECT, SUBSCRIBE, PUBLISH (out and in) and PINGREQ. The byte stream is
//! driven by its owner.

use crate::bounded::BoundedVec;
use crate::error::PortError;
use crate::port::FrameAddr;
use crate::proto::Transport;
use crate::text::{law_text_round_trip, text_of, utf8_text};
use crate::wire::{lemma_group_ranges, lemma_groups_round_trip, take_groups, varint};
use vstd::prelude::*;
use vstd::slice::slice_subrange;
use vstd::utf8::{encode_utf8, is_ascii_chars, is_ascii_chars_encode_utf8};

verus! {

// ---------------------------------------------------------------------------
// Topics
// ---------------------------------------------------------------------------

/// Topic-naming helper.
///
/// The topic scheme is stable and forms part of the wire protocol.
pub struct Topic;

/// A hexadecimal digit.
pub open spec fn hex_digit(n: int) -> char {
    "0123456789abcdef"@[n]
}

/// An address in hexadecimal digits, two for each byte.
pub open spec fn hex_addr(addr: [u8; 6]) -> Seq<char> {
    Seq::new(
        12,
        |i: int|
            if i % 2 == 0 {
                hex_digit(addr@[i / 2] as int / 16)
            } else {
                hex_digit(addr@[i / 2] as int % 16)
            },
    )
}

/// The topic for frames to one node.
pub open spec fn unicast_topic(addr: [u8; 6]) -> Seq<char> {
    Topic::UNICAST_PREFIX@ + hex_addr(addr)
}

/// The topic for frames with this addressing.
pub open spec fn topic_of(addr: FrameAddr) -> Seq<char> {
    match addr {
        FrameAddr::Broadcast => Topic::BROADCAST@,
        FrameAddr::Unicast(a) => unicast_topic(a),
    }
}

/// The hexadecimal digits are ASCII.
proof fn lemma_hex_digits()
    ensures
        "0123456789abcdef"@.len() == 16,
        forall|n: int| 0 <= n < 10 ==> #[trigger] hex_digit(n) as int == 0x30 + n,
        forall|n: int| 10 <= n < 16 ==> #[trigger] hex_digit(n) as int == 0x61 + n - 10,
{
    reveal_strlit("0123456789abcdef");
}

fn hex_nibble(n: u8) -> (d: u8)
    requires
        n < 16,
    ensures
        d == hex_digit(n as int) as u8,
{
    proof {
        lemma_hex_digits();
    }
    if n <= 9 {
        0x30 + n
    } else {
        0x61 + (n - 10)
    }
}

/// A unicast topic is 24 ASCII characters.
proof fn lemma_unicast_topic_bytes(addr: [u8; 6])
    ensures
        unicast_topic(addr).len() == 24,
        encode_utf8(unicast_topic(addr)).len() == 24,
        forall|i: int|
            0 <= i < 24 ==> #[trigger] encode_utf8(unicast_topic(addr))[i] == unicast_topic(
                addr,
            )[i] as u8,
        encode_utf8("relaystar/u/"@).len() == 12,
        forall|i: int|
            0 <= i < 12 ==> #[trigger] encode_utf8("relaystar/u/"@)[i] == unicast_topic(
                addr,
            )[i] as u8,
{
    lemma_hex_digits();
    reveal_strlit("relaystar/u/");
    let topic = unicast_topic(addr);
    let prefix = "relaystar/u/"@;
    assert forall|i: int| 0 <= i < topic.len() implies (#[trigger] topic[i] as int) < 128 by {
        if i >= 12 {
            let b = addr@[(i - 12) / 2] as int;
            assert(0 <= b / 16 < 16 && 0 <= b % 16 < 16);
            assert(topic[i] == hex_addr(addr)[i - 12]);
        }
    }
    assert(is_ascii_chars(topic));
    assert(is_ascii_chars(prefix));
    is_ascii_chars_encode_utf8(topic);
    is_ascii_chars_encode_utf8(prefix);
}

impl Topic {
    /// Topic of broadcast publications.
    pub const BROADCAST: &'static str = "relaystar/b";

    /// Prefix of unicast topics.
    pub const UNICAST_PREFIX: &'static str = "relaystar/u/";

    /// Length of a unicast topic: the prefix and 12 hexadecimal digits.
    pub const UNICAST_TOPIC_LEN: usize = 24;

    /// Build the unicast topic for `addr` into `buf`, returning it as text.
    ///
    /// # Errors
    /// Returns [`PortError::FrameTooLarge`] when the buffer is shorter than
    /// [`Self::UNICAST_TOPIC_LEN`].
    pub fn unicast_for<'a>(addr: [u8; 6], buf: &'a mut [u8]) -> (r: Result<&'a str, PortError>)
        ensures
            r is Ok <==> old(buf)@.len() >= Topic::UNICAST_TOPIC_LEN,
            r is Ok ==> r->Ok_0@ == unicast_topic(addr) && final(buf)@ == encode_utf8(
                unicast_topic(addr),
            ) + old(buf)@.skip(24),
            r is Err ==> r->Err_0 == PortError::FrameTooLarge && final(buf)@ == old(buf)@,
    {
        if buf.len() < Self::UNICAST_TOPIC_LEN {
            return Err(PortError::FrameTooLarge);
        }
        let ghost before = buf@;
        let ghost bytes = encode_utf8(unicast_topic(addr));
        proof {
            lemma_unicast_topic_bytes(addr);
            law_text_round_trip(unicast_topic(addr), bytes);
        }
        let prefix = Self::UNICAST_PREFIX.as_bytes();
        let mut i: usize = 0;
        while i < prefix.len()
            invariant
                i <= 12,
                prefix@ == encode_utf8("relaystar/u/"@),
                prefix@.len() == 12,
                bytes.len() == 24,
                forall|k: int| 0 <= k < 12 ==> prefix@[k] == #[trigger] bytes[k],
                buf@.len() == before.len() >= 24,
                forall|k: int| 0 <= k < i ==> #[trigger] buf@[k] == bytes[k],
                forall|k: int| i <= k < before.len() ==> #[trigger] buf@[k] == before[k],
            decreases 12 - i,
        {
            buf[i] = prefix[i];
            i += 1;
        }
        let mut n: usize = 0;
        while n < 6
            invariant
                n <= 6,
                i == 12 + 2 * n,
                bytes == encode_utf8(unicast_topic(addr)),
                bytes.len() == 24,
                forall|k: int|
                    0 <= k < 24 ==> #[trigger] bytes[k] == unicast_topic(addr)[k] as u8,
                buf@.len() == before.len() >= 24,
                forall|k: int| 0 <= k < i ==> #[trigger] buf@[k] == bytes[k],
                forall|k: int| i <= k < before.len() ==> #[trigger] buf@[k] == before[k],
            decreases 6 - n,
        {
            let byte = addr[n];
            buf[i] = hex_nibble(byte / 16);
            buf[i + 1] = hex_nibble(byte % 16);
            proof {
                reveal_strlit("relaystar/u/");
                assert((2 * n) / 2 == n && (2 * n) % 2 == 0);
                assert((2 * n + 1) / 2 == n && (2 * n + 1) % 2 == 1);
                assert(unicast_topic(addr)[12 + 2 * n] == hex_addr(addr)[2 * n]);
                assert(unicast_topic(addr)[12 + 2 * n + 1] == hex_addr(addr)[2 * n + 1]);
                assert(bytes[i as int] == buf@[i as int]);
                assert(bytes[i + 1] == buf@[i + 1]);
            }
            i += 2;
            n += 1;
        }
        assert(buf@ =~= bytes + before.skip(24));
        assert(buf@.subrange(0, 24) =~= bytes);
        match utf8_text(slice_subrange(buf, 0, i)) {
            Some(topic) => Ok(topic),
            None => Err(PortError::FrameTooLarge),
        }
    }

    /// The topic to publish a frame to. Unicast topics are built in `buf`.
    ///
    /// # Errors
    /// Returns [`PortError::FrameTooLarge`] when the buffer is too small for a
    /// unicast topic.
    pub fn for_addr<'a>(addr: FrameAddr, buf: &'a mut [u8]) -> (r: Result<&'a str, PortError>)
        ensures
            r is Ok <==> (addr is Broadcast || old(buf)@.len() >= Topic::UNICAST_TOPIC_LEN),
            r is Ok ==> r->Ok_0@ == topic_of(addr),
            r is Ok && addr is Unicast ==> final(buf)@ == encode_utf8(topic_of(addr)) + old(
                buf,
            )@.skip(24),
            r is Err ==> r->Err_0 == PortError::FrameTooLarge,
            r is Err || addr is Broadcast ==> final(buf)@ == old(buf)@,
    {
        match addr {
            FrameAddr::Broadcast => Ok(Self::BROADCAST),
            FrameAddr::Unicast(a) => {
                proof {
                    lemma_unicast_topic_bytes(a);
                }
                Topic::unicast_for(a, buf)
            },
        }
    }
}

/// Different nodes have different topics, and none has the broadcast topic.
pub proof fn law_topics_tell_nodes_apart(a: FrameAddr, b: FrameAddr)
    requires
        topic_of(a) == topic_of(b),
    ensures
        a == b,
{
    lemma_hex_digits();
    reveal_strlit("relaystar/b");
    reveal_strlit("relaystar/u/");
    assert(topic_of(a).len() == if a is Broadcast {
        11nat
    } else {
        24
    });
    assert(topic_of(b).len() == if b is Broadcast {
        11nat
    } else {
        24
    });
    if let FrameAddr::Unicast(x) = a {
        if let FrameAddr::Unicast(y) = b {
            assert forall|i: int| 0 <= i < 6 implies x@[i] == y@[i] by {
                let (p, q) = (unicast_topic(x), unicast_topic(y));
                assert((2 * i) / 2 == i && (2 * i) % 2 == 0);
                assert((2 * i + 1) / 2 == i && (2 * i + 1) % 2 == 1);
                assert(p[12 + 2 * i] == hex_addr(x)[2 * i]);
                assert(q[12 + 2 * i] == hex_addr(y)[2 * i]);
                assert(p[12 + 2 * i + 1] == hex_addr(x)[2 * i + 1]);
                assert(q[12 + 2 * i + 1] == hex_addr(y)[2 * i + 1]);
                assert(hex_digit(x@[i] as int / 16) as int == hex_digit(y@[i] as int / 16) as int);
                assert(hex_digit(x@[i] as int % 16) as int == hex_digit(y@[i] as int % 16) as int);
            }
            assert(x =~= y);
        }
    }
}

// ---------------------------------------------------------------------------
// The port
// ---------------------------------------------------------------------------

/// Transport port over an MQTT client. Its view is the client.
pub struct MqttPort<C> {
    client: C,
}

impl<C> View for MqttPort<C> {
    type V = C;

    closed spec fn view(&self) -> C {
        self.client
    }
}

impl<C> MqttPort<C> {
    /// Wrap an MQTT client.
    pub fn new(client: C) -> (p: Self)
        ensures
            p@ == client,
    {
        MqttPort { client }
    }

    /// Access the inner client (for example to send administrative messages).
    pub fn inner(&mut self) -> (c: &mut C)
        ensures
            *c == old(self)@,
            final(self)@ == *final(c),
    {
        &mut self.client
    }

    /// Consume the port and return the inner client.
    pub fn into_inner(self) -> (c: C)
        ensures
            c == self@,
    {
        self.client
    }

    /// The transport of this port.
    pub fn transport(&self) -> (t: Transport)
        ensures
            t == Transport::Mqtt,
    {
        Transport::Mqtt
    }

    /// What the client's answer to a publication means.
    pub fn published(&self, ok: bool) -> (r: Result<(), PortError>)
        ensures
            ok ==> r == Ok::<(), PortError>(()),
            !ok ==> r == Err::<(), PortError>(PortError::Io),
    {
        if ok {
            Ok(())
        } else {
            Err(PortError::Io)
        }
    }
}

// ---------------------------------------------------------------------------
// Packets: what they are
// ---------------------------------------------------------------------------

/// MQTT packet identifier.
#[derive(Debug, Clone, Copy, PartialEq, Eq, PartialOrd, Ord, Hash)]
pub struct PacketId(pub u16);

/// Errors produced by [`Mqtt311Client`].
#[derive(Debug, Clone, Copy, PartialEq, Eq, Structural)]
#[non_exhaustive]
pub enum Mqtt311Error {
    /// Underlying transport I/O failure.
    Io,
    /// Broker returned an unexpected packet or malformed data.
    Protocol,
    /// Broker returned a non-zero CONNACK code.
    Rejected,
    /// A packet exceeded the buffer for it.
    TooLarge,
}

impl Mqtt311Error {
    /// What went wrong, in words.
    pub open spec fn describes(self) -> Seq<char> {
        match self {
            Mqtt311Error::Io => "mqtt i/o error"@,
            Mqtt311Error::Protocol => "mqtt protocol error"@,
            Mqtt311Error::Rejected => "mqtt connection rejected"@,
            Mqtt311Error::TooLarge => "mqtt packet too large"@,
        }
    }

    /// What went wrong, in words.
    pub fn describe(&self) -> (s: &'static str)
        ensures
            s@ == self.describes(),
    {
        match self {
            Mqtt311Error::Io => "mqtt i/o error",
            Mqtt311Error::Protocol => "mqtt protocol error",
            Mqtt311Error::Rejected => "mqtt connection rejected",
            Mqtt311Error::TooLarge => "mqtt packet too large",
        }
    }
}

/// A decoded inbound PUBLISH packet, borrowed from the caller's read buffer.
#[derive(Debug)]
pub struct IncomingPublish<'a> {
    /// Topic the message was published to.
    pub topic: &'a str,
    /// Raw payload bytes.
    pub payload: &'a [u8],
}

/// Maximum size of a single outgoing packet.
///
/// Sized to comfortably fit the [`Topic`] scheme and the largest frame.
pub const OUT_BUF: usize = 320;

/// Maximum size of the body of a CONNECT packet.
pub const CONNECT_BUF: usize = 64;

/// Maximum size of the body of a SUBSCRIBE packet.
pub const SUBSCRIBE_BUF: usize = 128;

/// A number in two bytes, high byte first.
pub open spec fn be16(n: nat) -> Seq<u8> {
    seq![(n / 256) as u8, (n % 256) as u8]
}

/// A string as MQTT writes it: its length in two bytes, then its bytes.
pub open spec fn mqtt_string(s: Seq<char>) -> Seq<u8> {
    be16(encode_utf8(s).len()) + encode_utf8(s)
}

/// A packet: its first byte, the length of its body, its body.
pub open spec fn packet_bytes(first: u8, body: Seq<u8>) -> Seq<u8> {
    seq![first] + varint(body.len()) + body
}

/// The body of a CONNECT packet: protocol `MQTT`, level 4, clean session.
pub open spec fn connect_body(client_id: Seq<char>, keepalive_secs: u16) -> Seq<u8> {
    seq![0u8, 4, 0x4D, 0x51, 0x54, 0x54, 0x04, 0x02] + be16(keepalive_secs as nat) + mqtt_string(
        client_id,
    )
}

/// The body of a SUBSCRIBE packet for one topic at QoS 0.
pub open spec fn subscribe_body(topic: Seq<char>, packet_id: PacketId) -> Seq<u8> {
    be16(packet_id.0 as nat) + mqtt_string(topic) + seq![0u8]
}

/// The body of a PUBLISH packet at QoS 0.
pub open spec fn publish_body(topic: Seq<char>, payload: Seq<u8>) -> Seq<u8> {
    mqtt_string(topic) + payload
}

/// What the answer to CONNECT means: it must be a CONNACK packet, and its
/// return code must be zero.
pub open spec fn connack_result(first: u8, body: Seq<u8>) -> Result<(), Mqtt311Error> {
    if first / 16 != 2 || body.len() < 2 {
        Err(Mqtt311Error::Protocol)
    } else if body[1] != 0 {
        Err(Mqtt311Error::Rejected)
    } else {
        Ok(())
    }
}

/// What the answer to SUBSCRIBE means: it must be the SUBACK packet with the
/// packet id of the request. Its return code is not looked at.
pub open spec fn suback_result(first: u8, body: Seq<u8>, packet_id: PacketId) -> Result<
    (),
    Mqtt311Error,
> {
    if first / 16 == 9 && body.len() >= 2 && body.take(2) == be16(packet_id.0 as nat) {
        Ok(())
    } else {
        Err(Mqtt311Error::Protocol)
    }
}

/// What a packet that was read publishes: nothing if it is no PUBLISH packet,
/// and an error if its body does not start with a string.
pub open spec fn publication(first: u8, body: Seq<u8>) -> Result<
    Option<(Seq<char>, Seq<u8>)>,
    Mqtt311Error,
> {
    if first / 16 != 3 {
        Ok(None)
    } else if body.len() < 2 {
        Err(Mqtt311Error::Protocol)
    } else {
        let len = body[0] * 256 + body[1];
        if body.len() < 2 + len {
            Err(Mqtt311Error::Protocol)
        } else {
            match text_of(body.subrange(2, 2 + len)) {
                None => Err(Mqtt311Error::Protocol),
                Some(topic) => Ok(Some((topic, body.skip(2 + len)))),
            }
        }
    }
}

// ---------------------------------------------------------------------------
// Packets: writing and reading them
// ---------------------------------------------------------------------------

/// Append a number in two bytes, high byte first.
fn push_be16<const N: usize>(v: &mut BoundedVec<u8, N>, n: u16) -> (r: Result<(), Mqtt311Error>)
    ensures
        r is Ok <==> old(v)@.len() + 2 <= N,
        r is Ok ==> final(v)@ == old(v)@ + be16(n as nat),
        r is Err ==> r->Err_0 == Mqtt311Error::TooLarge,
{
    let bytes: [u8; 2] = [(n / 256) as u8, (n % 256) as u8];
    assert(bytes@ =~= be16(n as nat));
    match v.extend_from_slice(bytes.as_slice()) {
        Ok(()) => Ok(()),
        Err(_) => Err(Mqtt311Error::TooLarge),
    }
}

/// Append bytes.
fn push_bytes<const N: usize>(v: &mut BoundedVec<u8, N>, bytes: &[u8]) -> (r: Result<
    (),
    Mqtt311Error,
>)
    ensures
        r is Ok <==> old(v)@.len() + bytes@.len() <= N,
        r is Ok ==> final(v)@ == old(v)@ + bytes@,
        r is Err ==> r->Err_0 == Mqtt311Error::TooLarge,
{
    match v.extend_from_slice(bytes) {
        Ok(()) => Ok(()),
        Err(_) => Err(Mqtt311Error::TooLarge),
    }
}

/// Append a string as MQTT writes it.
fn push_string<const N: usize>(v: &mut BoundedVec<u8, N>, s: &str) -> (r: Result<
    (),
    Mqtt311Error,
>)
    requires
        N < 0x1_0000,
    ensures
        r is Ok <==> old(v)@.len() + 2 + encode_utf8(s@).len() <= N,
        r is Ok ==> final(v)@ == old(v)@ + mqtt_string(s@),
        r is Err ==> r->Err_0 == Mqtt311Error::TooLarge,
{
    let ghost before = v@;
    let bytes = s.as_bytes();
    let len = bytes.len();
    push_be16(v, (len % 0x1_0000) as u16)?;
    push_bytes(v, bytes)?;
    assert(v@ =~= before + mqtt_string(s@));
    Ok(())
}

/// Append the length of a packet's body.
fn write_remaining_len<const N: usize>(v: &mut BoundedVec<u8, N>, len: usize) -> (r: Result<
    (),
    Mqtt311Error,
>)
    ensures
        r is Ok <==> old(v)@.len() + varint(len as nat).len() <= N,
        r is Ok ==> final(v)@ == old(v)@ + varint(len as nat),
        r is Err ==> r->Err_0 == Mqtt311Error::TooLarge,
{
    let ghost before = v@;
    let mut rest = len;
    let ghost mut done = Seq::<u8>::empty();
    loop
        invariant
            before == old(v)@,
            v@ == before + done,
            done + varint(rest as nat) == varint(len as nat),
        decreases rest,
    {
        let mut byte = (rest % 128) as u8;
        let ghost now = rest;
        rest = rest / 128;
        if rest > 0 {
            byte = byte + 128;
        }
        proof {
            if now >= 128 {
                assert(varint(now as nat) =~= seq![byte] + varint(rest as nat));
            } else {
                assert(varint(now as nat) =~= seq![byte]);
            }
            assert(varint(len as nat).len() == done.len() + varint(now as nat).len());
        }
        match v.push(byte) {
            Ok(()) => {},
            Err(_) => return Err(Mqtt311Error::TooLarge),
        }
        proof {
            assert(v@ =~= before + done.push(byte));
            if rest > 0 {
                assert(done + (seq![byte] + varint(rest as nat)) =~= done.push(byte) + varint(
                    rest as nat,
                ));
            } else {
                assert(done + seq![byte] =~= done.push(byte));
            }
            done = done.push(byte);
        }
        if rest == 0 {
            return Ok(());
        }
    }
}

/// A whole packet.
fn packet(first: u8, body: &[u8]) -> (r: Result<BoundedVec<u8, OUT_BUF>, Mqtt311Error>)
    ensures
        r is Ok <==> packet_bytes(first, body@).len() <= OUT_BUF,
        r is Ok ==> r->Ok_0@ == packet_bytes(first, body@),
        r is Err ==> r->Err_0 == Mqtt311Error::TooLarge,
{
    let mut frame: BoundedVec<u8, OUT_BUF> = BoundedVec::new();
    let _ = frame.push(first);
    assert(frame@ =~= seq![first]);
    write_remaining_len(&mut frame, body.len())?;
    push_bytes(&mut frame, body)?;
    Ok(frame)
}

/// The length of a short body takes one byte, that of a longer one two.
pub proof fn lemma_short_lengths(n: nat)
    requires
        n < 0x4000,
    ensures
        varint(n).len() == if n < 128 {
            1nat
        } else {
            2
        },
{
    reveal_with_fuel(varint, 2);
}

/// Minimal MQTT 3.1.1 client at QoS 0.
///
/// Holds a bidirectional byte stream that is already connected and knows the
/// packets to exchange over it. Whoever drives the stream writes what the
/// client asks for and hands back what was read.
pub struct Mqtt311Client<S> {
    socket: S,
    client_id: &'static str,
    keepalive_secs: u16,
}

impl<S> Mqtt311Client<S> {
    /// The byte stream.
    pub closed spec fn stream(&self) -> S {
        self.socket
    }

    /// The name under which the client connects.
    pub closed spec fn id(&self) -> Seq<char> {
        self.client_id@
    }

    /// The keepalive interval.
    pub closed spec fn keepalive(&self) -> u16 {
        self.keepalive_secs
    }

    /// Wrap an already-open bidirectional byte stream.
    pub fn new(socket: S, client_id: &'static str, keepalive_secs: u16) -> (c: Self)
        ensures
            c.stream() == socket,
            c.id() == client_id@,
            c.keepalive() == keepalive_secs,
    {
        Mqtt311Client { socket, client_id, keepalive_secs }
    }

    /// Configured keepalive in seconds. Callers should send [`Self::ping`] at
    /// most every `keepalive_secs()` seconds.
    pub fn keepalive_secs(&self) -> (n: u16)
        ensures
            n == self.keepalive(),
    {
        self.keepalive_secs
    }

    /// Borrow the inner stream.
    pub fn inner_mut(&mut self) -> (s: &mut S)
        ensures
            *s == old(self).stream(),
            final(self).stream() == *final(s),
            final(self).id() == old(self).id(),
            final(self).keepalive() == old(self).keepalive(),
    {
        &mut self.socket
    }

    /// Consume the client and yield the inner stream.
    pub fn into_inner(self) -> (s: S)
        ensures
            s == self.stream(),
    {
        self.socket
    }

    /// The CONNECT packet that opens the session. The broker answers with a
    /// CONNACK packet; see [`Self::connected`].
    ///
    /// # Errors
    /// [`Mqtt311Error::TooLarge`] if the client id is too long.
    pub fn connect(&self) -> (r: Result<BoundedVec<u8, OUT_BUF>, Mqtt311Error>)
        ensures
            r is Ok <==> connect_body(self.id(), self.keepalive()).len() <= CONNECT_BUF,
            r is Ok ==> r->Ok_0@ == packet_bytes(
                0x10,
                connect_body(self.id(), self.keepalive()),
            ),
            r is Err ==> r->Err_0 == Mqtt311Error::TooLarge,
    {
        let mut vh: BoundedVec<u8, CONNECT_BUF> = BoundedVec::new();
        let protocol: [u8; 8] = [0, 4, 0x4D, 0x51, 0x54, 0x54, 0x04, 0x02];
        assert(protocol@ =~= seq![0u8, 4, 0x4D, 0x51, 0x54, 0x54, 0x04, 0x02]);
        push_bytes(&mut vh, protocol.as_slice())?;
        push_be16(&mut vh, self.keepalive_secs)?;
        push_string(&mut vh, self.client_id)?;
        assert(vh@ =~= connect_body(self.id(), self.keepalive()));
        proof {
            lemma_short_lengths(vh@.len());
        }
        packet(0x10, vh.as_slice())
    }

    /// What the answer to CONNECT means, given the first byte of the packet
    /// that came and its body.
    ///
    /// # Errors
    /// - [`Mqtt311Error::Protocol`] if it is no CONNACK packet or malformed.
    /// - [`Mqtt311Error::Rejected`] if its return code is not zero.
    pub fn connected(&self, first: u8, body: &[u8]) -> (r: Result<(), Mqtt311Error>)
        ensures
            r == connack_result(first, body@),
    {
        if first / 16 != 2 || body.len() < 2 {
            return Err(Mqtt311Error::Protocol);
        }
        if body[1] != 0 {
            return Err(Mqtt311Error::Rejected);
        }
        Ok(())
    }

    /// The SUBSCRIBE packet for one topic at QoS 0. The broker answers with a
    /// SUBACK packet; see [`Self::subscribed`].
    ///
    /// # Errors
    /// [`Mqtt311Error::TooLarge`] if the topic is too long.
    pub fn subscribe(&self, topic: &str, packet_id: PacketId) -> (r: Result<
        BoundedVec<u8, OUT_BUF>,
        Mqtt311Error,
    >)
        ensures
            r is Ok <==> subscribe_body(topic@, packet_id).len() <= SUBSCRIBE_BUF,
            r is Ok ==> r->Ok_0@ == packet_bytes(0x82, subscribe_body(topic@, packet_id)),
            r is Err ==> r->Err_0 == Mqtt311Error::TooLarge,
    {
        let mut vh: BoundedVec<u8, SUBSCRIBE_BUF> = BoundedVec::new();
        push_be16(&mut vh, packet_id.0)?;
        push_string(&mut vh, topic)?;
        let qos: [u8; 1] = [0];
        assert(qos@ =~= seq![0u8]);
        push_bytes(&mut vh, qos.as_slice())?;
        assert(vh@ =~= subscribe_body(topic@, packet_id));
        proof {
            lemma_short_lengths(vh@.len());
        }
        packet(0x82, vh.as_slice())
    }

    /// What the answer to SUBSCRIBE means, given the first byte of the packet
    /// that came and its body.
    ///
    /// # Errors
    /// [`Mqtt311Error::Protocol`] if it is not the SUBACK packet that matches
    /// the request.
    pub fn subscribed(&self, first: u8, body: &[u8], packet_id: PacketId) -> (r: Result<
        (),
        Mqtt311Error,
    >)
        ensures
            r == suback_result(first, body@, packet_id),
    {
        if first / 16 != 9 || body.len() < 2 {
            return Err(Mqtt311Error::Protocol);
        }
        let high = (packet_id.0 / 256) as u8;
        let low = (packet_id.0 % 256) as u8;
        proof {
            let (got, wanted) = (body@.take(2), be16(packet_id.0 as nat));
            assert(got == wanted <==> body@[0] == high && body@[1] == low) by {
                if body@[0] == high && body@[1] == low {
                    assert(got =~= wanted);
                }
                assert(got[0] == body@[0] && got[1] == body@[1]);
                assert(wanted[0] == high && wanted[1] == low);
            }
        }
        if body[0] != high || body[1] != low {
            return Err(Mqtt311Error::Protocol);
        }
        Ok(())
    }

    /// The packet that publishes `payload` at QoS 0 to `topic`.
    ///
    /// # Errors
    /// [`Mqtt311Error::TooLarge`] if the packet exceeds [`OUT_BUF`].
    pub fn publish(&self, topic: &str, payload: &[u8]) -> (r: Result<
        BoundedVec<u8, OUT_BUF>,
        Mqtt311Error,
    >)
        ensures
            r is Ok <==> packet_bytes(0x30, publish_body(topic@, payload@)).len() <= OUT_BUF,
            r is Ok ==> r->Ok_0@ == packet_bytes(0x30, publish_body(topic@, payload@)),
            r is Err ==> r->Err_0 == Mqtt311Error::TooLarge,
    {
        let mut vh: BoundedVec<u8, OUT_BUF> = BoundedVec::new();
        push_string(&mut vh, topic)?;
        push_bytes(&mut vh, payload)?;
        assert(vh@ =~= publish_body(topic@, payload@));
        packet(0x30, vh.as_slice())
    }

    /// The PINGREQ packet that keeps the connection alive. Callers send it on
    /// their own timer.
    pub fn ping(&self) -> (p: [u8; 2])
        ensures
            p@ == packet_bytes(0xC0, Seq::empty()),
    {
        let p: [u8; 2] = [0xC0, 0x00];
        assert(p@ =~= packet_bytes(0xC0, Seq::empty()));
        p
    }

    /// What a packet publishes, given its first byte and its body: topic and
    /// payload if it is a PUBLISH packet, nothing otherwise (for example for
    /// PINGRESP).
    ///
    /// # Errors
    /// [`Mqtt311Error::Protocol`] on a malformed topic.
    pub fn read_publish<'a>(&self, first: u8, body: &'a [u8]) -> (r: Result<
        Option<IncomingPublish<'a>>,
        Mqtt311Error,
    >)
        ensures
            match publication(first, body@) {
                Ok(Some((topic, payload))) => r is Ok && r->Ok_0 is Some && (r->Ok_0->0).topic@
                    == topic && (r->Ok_0->0).payload@ == payload,
                Ok(None) => r is Ok && r->Ok_0 is None,
                Err(e) => r is Err && r->Err_0 == e,
            },
    {
        if first / 16 != 3 {
            return Ok(None);
        }
        if body.len() < 2 {
            return Err(Mqtt311Error::Protocol);
        }
        let topic_len = body[0] as usize * 256 + body[1] as usize;
        if body.len() < 2 + topic_len {
            return Err(Mqtt311Error::Protocol);
        }
        let topic = match utf8_text(slice_subrange(body, 2, 2 + topic_len)) {
            Some(t) => t,
            None => return Err(Mqtt311Error::Protocol),
        };
        let payload = slice_subrange(body, 2 + topic_len, body.len());
        assert(payload@ =~= body@.skip(2 + topic_len));
        Ok(Some(IncomingPublish { topic, payload }))
    }
}

// ---------------------------------------------------------------------------
// Taking packets off the stream
// ---------------------------------------------------------------------------

/// What to read next.
#[derive(Debug, Clone, Copy, PartialEq, Eq, Structural)]
pub enum ReadStep {
    /// One more byte.
    Byte,
    /// The body: so many bytes. The packet starts with byte `first`.
    Body { first: u8, len: usize },
    /// Nothing; the packet cannot be read.
    Fail(Mqtt311Error),
}

/// Reads the front of a packet, byte by byte, until the length of its body is
/// known. Its view is the sequence of bytes read so far.
pub struct PacketReader {
    first: u8,
    count: u8,
    value: usize,
    multiplier: usize,
    read: Ghost<Seq<u8>>,
}

/// What to read after the bytes `read` of a packet whose body may have at most
/// `room` bytes. The length of the body follows the first byte and takes at
/// most four bytes.
pub open spec fn read_step(read: Seq<u8>, room: nat) -> ReadStep {
    if read.len() == 0 {
        ReadStep::Byte
    } else {
        match take_groups(read.skip(1), 4) {
            Some((len, _)) => if len > room {
                ReadStep::Fail(Mqtt311Error::TooLarge)
            } else {
                ReadStep::Body { first: read[0], len: len as usize }
            },
            None => if read.len() < 5 {
                ReadStep::Byte
            } else {
                ReadStep::Fail(Mqtt311Error::Protocol)
            },
        }
    }
}

/// A buffer of this size has room for every answer.
pub const REPLY_BUF: usize = 16;

/// A packet that the broker owes as an answer.
#[derive(Debug, Clone, Copy, PartialEq, Eq, Structural)]
pub enum Reply {
    /// The answer to CONNECT.
    Connack,
    /// The answer to SUBSCRIBE.
    Suback,
}

impl Reply {
    /// The most bytes that the body of the answer may have.
    pub open spec fn room_spec(self) -> usize {
        match self {
            Reply::Connack => 8,
            Reply::Suback => 16,
        }
    }

    /// The most bytes that the body of the answer may have.
    pub fn room(self) -> (n: usize)
        ensures
            n == self.room_spec(),
            n <= REPLY_BUF,
    {
        match self {
            Reply::Connack => 8,
            Reply::Suback => 16,
        }
    }
}

/// What to read after the bytes `read` of an answer. A packet that is too long
/// for the answer is the wrong packet, or malformed.
pub open spec fn reply_step(read: Seq<u8>, reply: Reply) -> ReadStep {
    match read_step(read, reply.room_spec() as nat) {
        ReadStep::Fail(_) => ReadStep::Fail(Mqtt311Error::Protocol),
        step => step,
    }
}

/// The number that some groups of seven bits make, low group first.
pub open spec fn groups_value(groups: Seq<u8>) -> nat
    decreases groups.len(),
{
    if groups.len() == 0 {
        0
    } else {
        (groups[0] % 128 + 128 * groups_value(groups.skip(1))) as nat
    }
}

/// What a group counts at position `n`.
pub open spec fn power(n: nat) -> nat
    decreases n,
{
    if n == 0 {
        1
    } else {
        128 * power((n - 1) as nat)
    }
}

/// One more group adds its value at the next power.
proof fn lemma_groups_push(groups: Seq<u8>, b: u8)
    ensures
        groups_value(groups.push(b)) == groups_value(groups) + (b % 128) * power(groups.len()),
    decreases groups.len(),
{
    let all = groups.push(b);
    if groups.len() == 0 {
        assert(all.skip(1) =~= Seq::empty());
        reveal_with_fuel(groups_value, 2);
        assert((b % 128) * 1 == b % 128);
    } else {
        let rest = groups.skip(1);
        lemma_groups_push(rest, b);
        assert(all.skip(1) =~= rest.push(b));
        let p = power(rest.len());
        assert(128 * ((b % 128) * p) == (b % 128) * (128 * p)) by (nonlinear_arith);
    }
}

/// Groups that all have more to follow are no number yet; with a last group
/// they are.
proof fn lemma_take_groups_open(groups: Seq<u8>, limit: nat)
    requires
        forall|i: int| 0 <= i < groups.len() ==> #[trigger] groups[i] >= 128,
    ensures
        take_groups(groups, limit) is None,
    decreases limit,
{
    if limit > 0 && groups.len() > 0 {
        lemma_take_groups_open(groups.skip(1), (limit - 1) as nat);
    }
}

proof fn lemma_take_groups_closed(groups: Seq<u8>, b: u8, limit: nat)
    requires
        forall|i: int| 0 <= i < groups.len() ==> #[trigger] groups[i] >= 128,
        b < 128,
        groups.len() < limit,
    ensures
        take_groups(groups.push(b), limit) == Some(
            (groups_value(groups.push(b)), Seq::<u8>::empty()),
        ),
    decreases groups.len(),
{
    let all = groups.push(b);
    if groups.len() == 0 {
        assert(all.skip(1) =~= Seq::empty());
        reveal_with_fuel(groups_value, 2);
    } else {
        lemma_take_groups_closed(groups.skip(1), b, (limit - 1) as nat);
        assert(all.skip(1) =~= groups.skip(1).push(b));
    }
}

impl View for PacketReader {
    type V = Seq<u8>;

    closed spec fn view(&self) -> Seq<u8> {
        self.read@
    }
}

impl PacketReader {
    /// The bytes read so far are the first byte and length bytes that all have
    /// more to follow.
    pub closed spec fn wf(&self) -> bool {
        let groups = self.read@.skip(1);
        &&& self.count == self.read@.len() <= 4
        &&& self.count > 0 ==> {
            &&& self.first == self.read@[0]
            &&& forall|i: int| 0 <= i < groups.len() ==> #[trigger] groups[i] >= 128
            &&& self.value == groups_value(groups)
            &&& self.multiplier == power(groups.len())
        }
    }

    /// A reader at the start of a packet.
    pub fn new() -> (r: Self)
        ensures
            r.wf(),
            r@ == Seq::<u8>::empty(),
    {
        PacketReader { first: 0, count: 0, value: 0, multiplier: 1, read: Ghost(Seq::empty()) }
    }

    /// Take in the next byte and say what to read after it, when the body may
    /// have at most `room` bytes. After [`ReadStep::Byte`] the reader expects
    /// another byte; otherwise it is through and stays as it was.
    pub fn on_byte(&mut self, byte: u8, room: usize) -> (step: ReadStep)
        requires
            old(self).wf(),
        ensures
            step == read_step(old(self)@.push(byte), room as nat),
            final(self).wf(),
            step is Byte ==> final(self)@ == old(self)@.push(byte),
            !(step is Byte) ==> *final(self) == *old(self),
    {
        let ghost before = self.read@;
        let ghost groups = before.skip(1);
        if self.count == 0 {
            self.first = byte;
            self.count = 1;
            self.value = 0;
            self.multiplier = 1;
            self.read = Ghost(self.read@.push(byte));
            proof {
                assert(before.push(byte).skip(1) =~= Seq::empty());
                assert(self.read@.skip(1) =~= Seq::empty());
            }
            return ReadStep::Byte;
        }
        proof {
            assert(before.push(byte).skip(1) =~= groups.push(byte));
            lemma_groups_push(groups, byte);
            reveal_with_fuel(power, 5);
            lemma_value_bound(groups);
            assert((byte % 128) * self.multiplier <= 127 * power(3)) by (nonlinear_arith)
                requires
                    0 <= byte % 128 <= 127,
                    self.multiplier <= power(3),
            ;
        }
        let value = self.value + (byte % 128) as usize * self.multiplier;
        if byte < 128 {
            proof {
                lemma_take_groups_closed(groups, byte, 4);
            }
            if value > room {
                return ReadStep::Fail(Mqtt311Error::TooLarge);
            }
            return ReadStep::Body { first: self.first, len: value };
        }
        proof {
            assert forall|i: int| 0 <= i < groups.push(byte).len() implies #[trigger] groups.push(
                byte,
            )[i] >= 128 by {
                if i < groups.len() {
                    assert(groups[i] >= 128);
                }
            }
            lemma_take_groups_open(groups.push(byte), 4);
        }
        if self.count == 4 {
            return ReadStep::Fail(Mqtt311Error::Protocol);
        }
        self.value = value;
        self.multiplier = self.multiplier * 128;
        self.count = self.count + 1;
        self.read = Ghost(self.read@.push(byte));
        ReadStep::Byte
    }

    /// Take in the next byte of an answer and say what to read after it. The
    /// body never has more than [`Reply::room`] bytes.
    pub fn on_reply_byte(&mut self, byte: u8, reply: Reply) -> (step: ReadStep)
        requires
            old(self).wf(),
        ensures
            final(self).wf(),
            step == reply_step(old(self)@.push(byte), reply),
            step is Byte ==> final(self)@ == old(self)@.push(byte),
            !(step is Byte) ==> *final(self) == *old(self),
            step matches ReadStep::Body { first: _, len } ==> len <= reply.room_spec(),
    {
        match self.on_byte(byte, reply.room()) {
            ReadStep::Fail(_) => ReadStep::Fail(Mqtt311Error::Protocol),
            step => step,
        }
    }

    /// What a failure to read from the stream means.
    pub fn on_io_error(&self) -> (e: Mqtt311Error)
        ensures
            e == Mqtt311Error::Io,
    {
        Mqtt311Error::Io
    }
}

/// Groups make a number below the next power.
proof fn lemma_value_bound(groups: Seq<u8>)
    ensures
        groups_value(groups) < power(groups.len()),
        power(groups.len()) > 0,
    decreases groups.len(),
{
    if groups.len() > 0 {
        lemma_value_bound(groups.skip(1));
    }
}

// ---------------------------------------------------------------------------
// Laws
// ---------------------------------------------------------------------------

/// Reading a packet byte by byte finds its first byte and the length of its
/// body right behind the length bytes, and asks for another byte before that. A
/// body without room is refused there.
pub proof fn law_packet_front_is_read_back(first: u8, body: Seq<u8>, room: nat, n: int)
    requires
        body.len() < 0x1000_0000,
        0 <= n <= 1 + varint(body.len()).len(),
    ensures
        read_step(packet_bytes(first, body).take(n), room) == if n < 1 + varint(
            body.len(),
        ).len() {
            ReadStep::Byte
        } else if body.len() <= room {
            ReadStep::Body { first, len: body.len() as usize }
        } else {
            ReadStep::Fail(Mqtt311Error::TooLarge)
        },
{
    let bytes = packet_bytes(first, body);
    let len = varint(body.len());
    lemma_group_ranges();
    lemma_length_bytes(body.len(), 4);
    if n == 0 {
    } else if n < 1 + len.len() {
        let groups = len.take(n - 1);
        assert(bytes.take(n).skip(1) =~= groups);
        assert forall|i: int| 0 <= i < groups.len() implies #[trigger] groups[i] >= 128 by {
            assert(groups[i] == len[i]);
        }
        lemma_take_groups_open(groups, 4);
    } else {
        assert(bytes.take(n).skip(1) =~= len + Seq::empty());
        lemma_groups_round_trip(body.len(), 4, Seq::empty());
    }
}

/// What comes of an answer that is read to the end of its front: of its body
/// if there is room for it, and an error otherwise.
pub open spec fn reply_result(
    first: u8,
    body: Seq<u8>,
    reply: Reply,
    judged: Result<(), Mqtt311Error>,
) -> Result<(), Mqtt311Error> {
    let front = packet_bytes(first, body).take((1 + varint(body.len()).len()) as int);
    match reply_step(front, reply) {
        ReadStep::Body { first: _, len: _ } => judged,
        ReadStep::Fail(e) => Err(e),
        ReadStep::Byte => Err(Mqtt311Error::Protocol),
    }
}

/// Whatever packet comes in place of a CONNACK packet, however long it is, it
/// is a protocol error; and a CONNACK packet accepts or rejects by its return
/// code.
pub proof fn law_connect_reply(first: u8, body: Seq<u8>)
    requires
        body.len() < 0x1000_0000,
    ensures
        ({
            let result = reply_result(first, body, Reply::Connack, connack_result(first, body));
            &&& first / 16 != 2 ==> result == Err::<(), Mqtt311Error>(Mqtt311Error::Protocol)
            &&& first / 16 == 2 && body.len() == 2 ==> result == if body[1] == 0 {
                Ok::<(), Mqtt311Error>(())
            } else {
                Err(Mqtt311Error::Rejected)
            }
        }),
{
    let n = 1 + varint(body.len()).len();
    law_packet_front_is_read_back(first, body, Reply::Connack.room_spec() as nat, n as int);
}

/// Whatever packet comes in place of the SUBACK packet of a request, however
/// long it is, it is a protocol error; the SUBACK packet itself is a success,
/// whatever its return code.
pub proof fn law_subscribe_reply(first: u8, body: Seq<u8>, packet_id: PacketId, code: u8)
    requires
        body.len() < 0x1000_0000,
    ensures
        ({
            let judged = suback_result(first, body, packet_id);
            let result = reply_result(first, body, Reply::Suback, judged);
            &&& result is Ok ==> first / 16 == 9 && body.take(2) == be16(packet_id.0 as nat)
            &&& result is Err ==> result == Err::<(), Mqtt311Error>(Mqtt311Error::Protocol)
            &&& first / 16 == 9 && body == be16(packet_id.0 as nat).push(code) ==> result is Ok
        }),
{
    let n = 1 + varint(body.len()).len();
    law_packet_front_is_read_back(first, body, Reply::Suback.room_spec() as nat, n as int);
    if body == be16(packet_id.0 as nat).push(code) {
        assert(body.take(2) =~= be16(packet_id.0 as nat));
    }
}

/// A length takes at most `limit` bytes, and all but the last have more to
/// follow.
proof fn lemma_length_bytes(n: nat, limit: nat)
    requires
        limit > 0,
        n < crate::wire::group_range(limit),
    ensures
        0 < varint(n).len() <= limit,
        forall|i: int| 0 <= i < varint(n).len() - 1 ==> #[trigger] varint(n)[i] >= 128,
    decreases limit,
{
    if n >= 128 {
        if limit == 1 {
            reveal_with_fuel(crate::wire::group_range, 2);
        }
        lemma_length_bytes(n / 128, (limit - 1) as nat);
        assert forall|i: int| 0 <= i < varint(n).len() - 1 implies #[trigger] varint(n)[i]
            >= 128 by {
            if i > 0 {
                assert(varint(n)[i] == varint(n / 128)[i - 1]);
            }
        }
    }
}

/// What is published is read back: topic and payload come out of the body as
/// they went in, whatever the flags of the packet.
pub proof fn law_publication_round_trip(topic: Seq<char>, payload: Seq<u8>)
    requires
        encode_utf8(topic).len() < 0x1_0000,
    ensures
        publication(0x30, publish_body(topic, payload)) == Ok::<
            Option<(Seq<char>, Seq<u8>)>,
            Mqtt311Error,
        >(Some((topic, payload))),
        forall|first: u8|
            first / 16 == 3 ==> #[trigger] publication(first, publish_body(topic, payload))
                == publication(0x30, publish_body(topic, payload)),
{
    let body = publish_body(topic, payload);
    let text = encode_utf8(topic);
    let len = text.len() as int;
    assert(body[0] * 256 + body[1] == len);
    assert(body.subrange(2, 2 + len) =~= text);
    assert(body.skip(2 + len) =~= payload);
    law_text_round_trip(topic, text);
}

/// Every frame can be published, to whatever topic the port chooses.
pub proof fn law_frames_can_be_published(addr: FrameAddr, frame: Seq<u8>)
    requires
        frame.len() <= crate::proto::MAX_FRAME,
    ensures
        packet_bytes(0x30, publish_body(topic_of(addr), frame)).len() <= OUT_BUF,
{
    match addr {
        FrameAddr::Unicast(a) => lemma_unicast_topic_bytes(a),
        FrameAddr::Broadcast => {
            reveal_strlit("relaystar/b");
            assert(is_ascii_chars(Topic::BROADCAST@));
            is_ascii_chars_encode_utf8(Topic::BROADCAST@);
        },
    }
    lemma_short_lengths(publish_body(topic_of(addr), frame).len());
}

/// A packet publishes nothing exactly if it is no PUBLISH packet. A PUBLISH
/// packet is malformed if it ends before its topic does or its topic is no
/// text; no other packet is.
pub proof fn law_publication_errors(first: u8, body: Seq<u8>)
    ensures
        publication(first, body) == Ok::<Option<(Seq<char>, Seq<u8>)>, Mqtt311Error>(None)
            <==> first / 16 != 3,
        publication(first, body) matches Err(e) ==> e == Mqtt311Error::Protocol,
        publication(first, body) is Err <==> first / 16 == 3 && (body.len() < 2 || body.len() < 2
            + body[0] * 256 + body[1] || forall|topic: Seq<char>|
            body.subrange(2, 2 + body[0] * 256 + body[1]) != #[trigger] encode_utf8(topic)),
{
    if first / 16 == 3 && body.len() >= 2 {
        let len = body[0] * 256 + body[1];
        if body.len() >= 2 + len {
            let part = body.subrange(2, 2 + len);
            assert(part == body.subrange(2, 2 + body[0] * 256 + body[1]));
            match text_of(part) {
                Some(topic) => {
                    law_text_round_trip(topic, part);
                    assert(part == encode_utf8(topic));
                },
                None => {
                    assert forall|topic: Seq<char>| part != #[trigger] encode_utf8(topic) by {
                        law_text_round_trip(topic, part);
                    }
                },
            }
        }
    }
}

/// Two bytes hold a number up to 65535, high byte first.
pub proof fn law_two_bytes(n: nat)
    requires
        n < 0x1_0000,
    ensures
        be16(n).len() == 2,
        256 * be16(n)[0] + be16(n)[1] == n,
{
}

/// The parts of a CONNECT packet: the protocol by name, its level, the flag for
/// a clean session, the keepalive interval and the name of the client.
pub proof fn law_connect_body(client_id: Seq<char>, keepalive_secs: u16)
    requires
        encode_utf8(client_id).len() < 0x1_0000,
    ensures
        ({
            let body = connect_body(client_id, keepalive_secs);
            &&& body.take(6) == mqtt_string("MQTT"@)
            &&& body[6] == 4
            &&& body[7] == 2
            &&& 256 * body[8] + body[9] == keepalive_secs
            &&& 256 * body[10] + body[11] == encode_utf8(client_id).len()
            &&& body.skip(12) == encode_utf8(client_id)
        }),
{
    let body = connect_body(client_id, keepalive_secs);
    reveal_strlit("MQTT");
    assert(is_ascii_chars("MQTT"@));
    is_ascii_chars_encode_utf8("MQTT"@);
    assert(body.take(6) =~= mqtt_string("MQTT"@));
    assert(body.skip(12) =~= encode_utf8(client_id));
}

/// The parts of a SUBSCRIBE packet: the packet id that the answer has to carry,
/// and the topic, which reads back as the topic of a publication does, with
/// QoS 0 behind it.
pub proof fn law_subscribe_body(topic: Seq<char>, packet_id: PacketId)
    requires
        encode_utf8(topic).len() < 0x1_0000,
    ensures
        ({
            let body = subscribe_body(topic, packet_id);
            &&& 256 * body[0] + body[1] == packet_id.0
            &&& suback_result(0x90, body.take(2).push(0), packet_id) is Ok
            &&& publication(0x30, body.skip(2)) == Ok::<
                Option<(Seq<char>, Seq<u8>)>,
                Mqtt311Error,
            >(Some((topic, seq![0u8])))
        }),
{
    let body = subscribe_body(topic, packet_id);
    assert(body.skip(2) =~= publish_body(topic, seq![0u8]));
    law_publication_round_trip(topic, seq![0u8]);
    assert(body.take(2) =~= be16(packet_id.0 as nat));
    assert(body.take(2).push(0).take(2) =~= body.take(2));
}

/// The answer to CONNECT is a success exactly if it is a CONNACK packet with a
/// return code of zero, and a rejection exactly if it is one with another.
pub proof fn law_connack(first: u8, body: Seq<u8>)
    ensures
        connack_result(first, body) is Ok <==> first / 16 == 2 && body.len() >= 2 && body[1] == 0,
        connack_result(first, body) == Err::<(), Mqtt311Error>(Mqtt311Error::Rejected) <==> first
            / 16 == 2 && body.len() >= 2 && body[1] != 0,
        connack_result(first, body) matches Err(e) ==> e == Mqtt311Error::Rejected || e
            == Mqtt311Error::Protocol,
{
}

/// The answer to SUBSCRIBE is a success exactly if it is a SUBACK packet with
/// the packet id of the request.
pub proof fn law_suback(first: u8, body: Seq<u8>, packet_id: PacketId)
    ensures
        suback_result(first, body, packet_id) is Ok <==> first / 16 == 9 && body.len() >= 2 && 256
            * body[0] + body[1] == packet_id.0,
        suback_result(first, body, packet_id) matches Err(e) ==> e == Mqtt311Error::Protocol,
{
    if body.len() >= 2 {
        let (got, wanted) = (body.take(2), be16(packet_id.0 as nat));
        assert(got[0] == body[0] && got[1] == body[1]);
        assert(wanted[0] == packet_id.0 as nat / 256 && wanted[1] == packet_id.0 as nat % 256);
        if 256 * body[0] + body[1] == packet_id.0 {
            assert(got =~= wanted);
        }
    }
}

/// An answer that is judged is one that there is room for, 8 bytes for a
/// CONNACK packet and 16 for a SUBACK packet; a longer one is a protocol error.
pub proof fn law_reply_room(
    first: u8,
    body: Seq<u8>,
    reply: Reply,
    judged: Result<(), Mqtt311Error>,
)
    requires
        body.len() < 0x1000_0000,
    ensures
        ({
            let room: nat = match reply {
                Reply::Connack => 8,
                Reply::Suback => 16,
            };
            reply_result(first, body, reply, judged) == if body.len() <= room {
                judged
            } else {
                Err(Mqtt311Error::Protocol)
            }
        }),
{
    let n = 1 + varint(body.len()).len();
    law_packet_front_is_read_back(first, body, reply.room_spec() as nat, n as int);
}

/// A length that does not end within four bytes is malformed.
pub proof fn law_overlong_length(read: Seq<u8>, room: nat, reply: Reply)
    requires
        read.len() >= 5,
        forall|i: int| 1 <= i < read.len() ==> #[trigger] read[i] >= 128,
    ensures
        read_step(read, room) == ReadStep::Fail(Mqtt311Error::Protocol),
        reply_step(read, reply) == ReadStep::Fail(Mqtt311Error::Protocol),
{
    let groups = read.skip(1);
    assert forall|i: int| 0 <= i < groups.len() implies #[trigger] groups[i] >= 128 by {
        assert(groups[i] == read[i + 1]);
    }
    lemma_take_groups_open(groups, 4);
}

/// The number that a hexadecimal digit stands for; small letters only.
pub open spec fn hex_value(c: char) -> int {
    if '0' <= c <= '9' {
        c as int - '0' as int
    } else if 'a' <= c <= 'f' {
        c as int - 'a' as int + 10
    } else {
        -1
    }
}

/// The topic of a node is the prefix and then the bytes of its address in order,
/// two hexadecimal digits each, high digit first.
pub proof fn law_unicast_topic(addr: [u8; 6], i: int)
    requires
        0 <= i < 6,
    ensures
        topic_of(FrameAddr::Broadcast) == "relaystar/b"@,
        ({
            let topic = topic_of(FrameAddr::Unicast(addr));
            &&& topic.len() == 24
            &&& topic.take(12) == "relaystar/u/"@
            &&& 0 <= hex_value(topic[12 + 2 * i]) < 16
            &&& 0 <= hex_value(topic[13 + 2 * i]) < 16
            &&& 16 * hex_value(topic[12 + 2 * i]) + hex_value(topic[13 + 2 * i]) == addr@[i]
        }),
{
    lemma_hex_digits();
    reveal_strlit("relaystar/u/");
    let topic = topic_of(FrameAddr::Unicast(addr));
    assert(topic.take(12) =~= "relaystar/u/"@);
    assert((2 * i) / 2 == i && (2 * i) % 2 == 0);
    assert((2 * i + 1) / 2 == i && (2 * i + 1) % 2 == 1);
    assert(topic[12 + 2 * i] == hex_addr(addr)[2 * i]);
    assert(topic[13 + 2 * i] == hex_addr(addr)[2 * i + 1]);
    let b = addr@[i] as int;
    assert(topic[12 + 2 * i] == hex_digit(b / 16));
    assert(topic[13 + 2 * i] == hex_digit(b % 16));
}

/// The length of a body is what its bytes make, also where fewer bytes would
/// do: at most four bytes of seven bits each, low bits first, all but the last
/// with the high bit set. One byte less is not enough to tell.
pub proof fn law_length_bytes(first: u8, groups: Seq<u8>, last: u8, room: nat)
    requires
        groups.len() <= 3,
        forall|i: int| 0 <= i < groups.len() ==> #[trigger] groups[i] >= 128,
        last < 128,
    ensures
        read_step(seq![first] + groups, room) == ReadStep::Byte,
        read_step(seq![first] + groups.push(last), room) == if groups_value(groups.push(last))
            <= room {
            ReadStep::Body { first, len: groups_value(groups.push(last)) as usize }
        } else {
            ReadStep::Fail(Mqtt311Error::TooLarge)
        },
        groups_value(groups.push(last)) == groups_value(groups) + last * power(groups.len()),
{
    assert((seq![first] + groups).skip(1) =~= groups);
    assert((seq![first] + groups.push(last)).skip(1) =~= groups.push(last));
    lemma_take_groups_open(groups, 4);
    lemma_take_groups_closed(groups, last, 4);
    lemma_groups_push(groups, last);
}

/// The body of a packet follows its front unchanged.
pub proof fn law_packet_body(first: u8, body: Seq<u8>)
    ensures
        packet_bytes(first, body).skip((1 + varint(body.len()).len()) as int) == body,
        packet_bytes(first, body)[0] == first,
{
    let front = seq![first] + varint(body.len());
    assert((front + body).skip(front.len() as int) =~= body);
}

} // verus!
