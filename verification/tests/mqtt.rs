//! The MQTT client, its topics and its link.

use relaystar::bridge::Bridge;
use relaystar::error::PortError;
use relaystar::mqtt_link::{
    broker_port, downlink_packet, handle_uplink_text, next_link_state, parse_ipv4, uplink_text,
    LinkMove, LinkState, CLIENT_ID, KEEPALIVE_SECS, TOPIC_DOWNLINK, TOPIC_UPLINK,
};
use relaystar::port::FrameAddr;
use relaystar::ports::mqtt::{
    IncomingPublish, Mqtt311Client, Mqtt311Error, MqttPort, PacketId, PacketReader, ReadStep, Reply,
    Topic, REPLY_BUF,
};
use relaystar::proto::{Message, MsgKind, ProtoError, Transport, MAX_FRAME};

/// A trivial in-memory bidirectional stream.
struct MockSocket {
    rx: Vec<u8>,
    tx: Vec<u8>,
}

impl MockSocket {
    fn new(rx: Vec<u8>) -> Self {
        MockSocket { rx, tx: Vec::new() }
    }
}

type Client = Mqtt311Client<MockSocket>;

/// Write a packet that the client asks for.
fn write(client: &mut Client, packet: &[u8]) {
    client.inner_mut().tx.extend_from_slice(packet);
}

/// Read one packet, or the answer that is owed: its first byte, with its body
/// in `buf`.
fn read<'a>(
    client: &mut Client,
    buf: &'a mut [u8],
    reply: Option<Reply>,
) -> Result<(u8, &'a [u8]), Mqtt311Error> {
    let mut reader = PacketReader::new();
    loop {
        let socket = client.inner_mut();
        if socket.rx.is_empty() {
            return Err(reader.on_io_error());
        }
        let byte = socket.rx.remove(0);
        let step = match reply {
            Some(reply) => reader.on_reply_byte(byte, reply),
            None => reader.on_byte(byte, buf.len()),
        };
        match step {
            ReadStep::Byte => {}
            ReadStep::Body { first, len } => {
                if socket.rx.len() < len {
                    return Err(reader.on_io_error());
                }
                let body: Vec<u8> = socket.rx.drain(..len).collect();
                buf[..len].copy_from_slice(&body);
                return Ok((first, &buf[..len]));
            }
            ReadStep::Fail(e) => return Err(e),
        }
    }
}

fn connect(client: &mut Client) -> Result<(), Mqtt311Error> {
    let packet = client.connect()?;
    write(client, packet.as_slice());
    let mut buf = [0u8; REPLY_BUF];
    let (first, body) = read(client, &mut buf, Some(Reply::Connack))?;
    client.connected(first, body)
}

fn subscribe(client: &mut Client, topic: &str, id: PacketId) -> Result<(), Mqtt311Error> {
    let packet = client.subscribe(topic, id)?;
    write(client, packet.as_slice());
    let mut buf = [0u8; REPLY_BUF];
    let (first, body) = read(client, &mut buf, Some(Reply::Suback))?;
    client.subscribed(first, body, id)
}

fn publish(client: &mut Client, topic: &str, payload: &[u8]) -> Result<(), Mqtt311Error> {
    let packet = client.publish(topic, payload)?;
    write(client, packet.as_slice());
    Ok(())
}

fn ping(client: &mut Client) {
    let packet = client.ping();
    write(client, &packet);
}

fn read_publish<'a>(
    client: &mut Client,
    buf: &'a mut [u8],
) -> Result<Option<IncomingPublish<'a>>, Mqtt311Error> {
    let (first, body) = read(client, buf, None)?;
    client.read_publish(first, body)
}

#[test]
fn publish_encodes_expected_bytes() {
    let sock = MockSocket::new(Vec::new());
    let mut client = Mqtt311Client::new(sock, "test-client", 30);
    publish(&mut client, "hi", b"world").unwrap();

    let expected: Vec<u8> = vec![
        0x30, // PUBLISH, DUP=0, QoS=0, RETAIN=0
        0x09, // remaining length: 2 (topic len) + 2 (topic) + 5 (payload)
        0x00, 0x02, // topic length
        b'h', b'i', b'w', b'o', b'r', b'l', b'd',
    ];
    let got = client.into_inner().tx;
    assert_eq!(got, expected);
}

#[test]
fn connect_accepts_zero_connack() {
    let connack: Vec<u8> = vec![0x20, 0x02, 0x00, 0x00];
    let sock = MockSocket::new(connack);
    let mut client = Mqtt311Client::new(sock, "cid", 30);
    connect(&mut client).unwrap();
    // First byte in tx should be CONNECT type.
    assert_eq!(client.into_inner().tx[0], 0x10);
}

#[test]
fn connect_rejects_non_zero_connack() {
    let connack: Vec<u8> = vec![0x20, 0x02, 0x00, 0x05];
    let sock = MockSocket::new(connack);
    let mut client = Mqtt311Client::new(sock, "cid", 30);
    let err = connect(&mut client).unwrap_err();
    assert_eq!(err, Mqtt311Error::Rejected);
}

#[test]
fn read_publish_decodes_topic_and_payload() {
    // Full PUBLISH: type=0x30, remaining_len=9 (varint 0x09), topic_len=2,
    // topic='hi', payload='world'
    let publish: Vec<u8> = vec![
        0x30, 0x09, 0x00, 0x02, b'h', b'i', b'w', b'o', b'r', b'l', b'd',
    ];
    let sock = MockSocket::new(publish);
    let mut client = Mqtt311Client::new(sock, "cid", 30);
    let mut buf = [0u8; 32];
    let got = read_publish(&mut client, &mut buf).unwrap().unwrap();
    assert_eq!(got.topic, "hi");
    assert_eq!(got.payload, b"world");
}

#[test]
fn read_publish_returns_none_for_pingresp() {
    // PINGRESP: 0xD0 0x00
    let pingresp: Vec<u8> = vec![0xD0, 0x00];
    let sock = MockSocket::new(pingresp);
    let mut client = Mqtt311Client::new(sock, "cid", 30);
    let mut buf = [0u8; 8];
    let got = read_publish(&mut client, &mut buf).unwrap();
    assert!(got.is_none());
}

/// The call sequence of the terminal's MQTT link.
#[test]
fn full_client_flow_compiles_and_runs() {
    // Feed the mock a CONNACK(0) + SUBACK + PUBLISH so that everything that
    // reads from the broker completes.
    let mut rx: Vec<u8> = Vec::new();
    rx.extend_from_slice(&[0x20, 0x02, 0x00, 0x00]); // CONNACK, accepted
    rx.extend_from_slice(&[0x90, 0x03, 0x00, 0x01, 0x00]); // SUBACK id=1, QoS 0
    rx.extend_from_slice(&[
        0x30, 0x09, 0x00, 0x02, b'h', b'i', b'w', b'o', b'r', b'l', b'd',
    ]); // PUBLISH topic=hi payload=world

    let mut mqtt = Mqtt311Client::new(MockSocket::new(rx), "relaystar-card", 30);
    connect(&mut mqtt).unwrap();
    subscribe(&mut mqtt, "relaystar/uplink", PacketId(1)).unwrap();
    publish(&mut mqtt, "relaystar/downlink", b"hello").unwrap();
    ping(&mut mqtt);

    let mut buf = [0u8; 64];
    let publish = read_publish(&mut mqtt, &mut buf).unwrap().unwrap();
    assert_eq!(publish.topic, "hi");
    assert_eq!(publish.payload, b"world");
    assert_eq!(mqtt.keepalive_secs(), 30);
    let tx = mqtt.into_inner().tx;
    assert_eq!(&tx[tx.len() - 2..], &[0xC0, 0x00]);
}

/// Errors have a text and can be matched on (with a wildcard arm, as the enum
/// is non-exhaustive).
#[test]
fn error_display_and_match_shape() {
    let e = Mqtt311Error::Rejected;
    let _s = format!("{}", e.describe());
    assert_eq!(_s, "mqtt connection rejected");
    match e {
        Mqtt311Error::Io
        | Mqtt311Error::Protocol
        | Mqtt311Error::Rejected
        | Mqtt311Error::TooLarge => {}
        _ => {}
    }
}

#[test]
fn mqtt_error_texts() {
    assert_eq!(Mqtt311Error::Io.describe(), "mqtt i/o error");
    assert_eq!(Mqtt311Error::Protocol.describe(), "mqtt protocol error");
    assert_eq!(Mqtt311Error::TooLarge.describe(), "mqtt packet too large");
}

#[test]
fn connect_packet_bytes() {
    let client = Mqtt311Client::new(MockSocket::new(Vec::new()), "ab", 258);
    let packet = client.connect().unwrap();
    assert_eq!(
        packet.as_slice(),
        &[
            0x10, 14, // CONNECT
            0, 4, b'M', b'Q', b'T', b'T', 4, 2, // protocol
            1, 2, // keepalive
            0, 2, b'a', b'b',
        ][..]
    );
}

#[test]
fn connect_rejects_long_client_ids() {
    let fits = "0123456789012345678901234567890123456789012345678901";
    assert_eq!(fits.len(), 52);
    let client = Mqtt311Client::new((), fits, 30);
    assert!(client.connect().is_ok());
    let client = Mqtt311Client::new((), "01234567890123456789012345678901234567890123456789012", 30);
    assert_eq!(client.connect().err(), Some(Mqtt311Error::TooLarge));
}

#[test]
fn connack_must_be_one() {
    let client = Mqtt311Client::new((), "cid", 30);
    assert_eq!(client.connected(0x30, &[0, 0]), Err(Mqtt311Error::Protocol));
    assert_eq!(client.connected(0x20, &[0]), Err(Mqtt311Error::Protocol));
    assert_eq!(client.connected(0x20, &[0, 0]), Ok(()));
}

#[test]
fn suback_must_match() {
    let client = Mqtt311Client::new((), "cid", 30);
    let id = PacketId(0x0102);
    let bad = Err(Mqtt311Error::Protocol);
    assert_eq!(client.subscribed(0x90, &[1, 2, 0], id), Ok(()));
    assert_eq!(client.subscribed(0x90, &[1, 2, 0x7F, 9], id), Ok(()));
    assert_eq!(client.subscribed(0x20, &[1, 2, 0], id), bad);
    // For another request.
    assert_eq!(client.subscribed(0x90, &[1, 3, 0], id), bad);
    assert_eq!(client.subscribed(0x90, &[2, 2, 0], id), bad);
    // Cut short.
    assert_eq!(client.subscribed(0x90, &[1], id), bad);
    // The return code makes no difference.
    assert_eq!(client.subscribed(0x90, &[1, 2, 0x80], id), Ok(()));
    assert_eq!(client.subscribed(0x90, &[1, 2], id), Ok(()));
}

#[test]
fn subscribe_waits_for_the_matching_suback() {
    let rx = vec![0x90, 0x03, 0x00, 0x02, 0x00]; // SUBACK for packet id 2
    let mut client = Mqtt311Client::new(MockSocket::new(rx), "cid", 30);
    assert_eq!(
        subscribe(&mut client, "relaystar/uplink", PacketId(1)),
        Err(Mqtt311Error::Protocol)
    );
    let rx = vec![0x90, 0x03, 0x00, 0x01, 0x00];
    let mut client = Mqtt311Client::new(MockSocket::new(rx), "cid", 30);
    assert_eq!(subscribe(&mut client, "relaystar/uplink", PacketId(1)), Ok(()));
}

#[test]
fn connect_refuses_other_packets() {
    // A PUBLISH, longer than any CONNACK.
    let rx = vec![0x30, 0x09, 0x00, 0x02, b'h', b'i', b'w', b'o', b'r', b'l', b'd'];
    let mut client = Mqtt311Client::new(MockSocket::new(rx), "cid", 30);
    assert_eq!(connect(&mut client), Err(Mqtt311Error::Protocol));
    // A short one.
    let mut client = Mqtt311Client::new(MockSocket::new(vec![0xD0, 0x00]), "cid", 30);
    assert_eq!(connect(&mut client), Err(Mqtt311Error::Protocol));
    // A length that never ends.
    let rx = vec![0x20, 0xFF, 0xFF, 0xFF, 0xFF];
    let mut client = Mqtt311Client::new(MockSocket::new(rx), "cid", 30);
    assert_eq!(connect(&mut client), Err(Mqtt311Error::Protocol));
    // A closed stream.
    let mut client = Mqtt311Client::new(MockSocket::new(vec![0x20]), "cid", 30);
    assert_eq!(connect(&mut client), Err(Mqtt311Error::Io));
}

#[test]
fn subscribe_packet_bytes() {
    let client = Mqtt311Client::new((), "cid", 30);
    let packet = client.subscribe("a/b", PacketId(0x0102)).unwrap();
    assert_eq!(
        packet.as_slice(),
        &[0x82, 8, 1, 2, 0, 3, b'a', b'/', b'b', 0][..]
    );
    let long = "t".repeat(124);
    assert_eq!(
        client.subscribe(&long, PacketId(1)).err(),
        Some(Mqtt311Error::TooLarge)
    );
    assert!(client.subscribe(&long[1..], PacketId(1)).is_ok());
}

#[test]
fn publish_limits() {
    let client = Mqtt311Client::new((), "cid", 30);
    // First byte, two bytes of length, two of topic length, one of topic.
    let packet = client.publish("t", &[7; 314]).unwrap();
    assert_eq!(packet.len(), 320);
    assert_eq!(&packet.as_slice()[..6], &[0x30, 0xBD, 0x02, 0, 1, b't'][..]);
    assert_eq!(
        client.publish("t", &[7; 315]).err(),
        Some(Mqtt311Error::TooLarge)
    );
}

#[test]
fn every_frame_can_be_published() {
    let client = Mqtt311Client::new((), "cid", 30);
    let mut buf = [0u8; Topic::UNICAST_TOPIC_LEN];
    let topic = Topic::for_addr(FrameAddr::Unicast([0xAB; 6]), &mut buf).unwrap();
    assert!(client.publish(topic, &[0; MAX_FRAME]).is_ok());
}

#[test]
fn reader_limits() {
    let mut reader = PacketReader::new();
    assert_eq!(reader.on_byte(0x30, 1000), ReadStep::Byte);
    assert_eq!(reader.on_byte(0xE8, 1000), ReadStep::Byte);
    assert_eq!(
        reader.on_byte(0x07, 1000),
        ReadStep::Body { first: 0x30, len: 1000 }
    );
    let mut reader = PacketReader::new();
    reader.on_byte(0x30, 999);
    reader.on_byte(0xE8, 999);
    assert_eq!(
        reader.on_byte(0x07, 999),
        ReadStep::Fail(Mqtt311Error::TooLarge)
    );
    // A length has at most four bytes.
    let mut reader = PacketReader::new();
    reader.on_byte(0x30, 999);
    assert_eq!(reader.on_byte(0xFF, 999), ReadStep::Byte);
    assert_eq!(reader.on_byte(0xFF, 999), ReadStep::Byte);
    assert_eq!(reader.on_byte(0xFF, 999), ReadStep::Byte);
    assert_eq!(
        reader.on_byte(0xFF, 999),
        ReadStep::Fail(Mqtt311Error::Protocol)
    );
}

#[test]
fn reading_from_a_closed_stream_fails() {
    let mut client = Mqtt311Client::new(MockSocket::new(vec![0x30]), "cid", 30);
    let mut buf = [0u8; 8];
    assert!(matches!(read_publish(&mut client, &mut buf), Err(Mqtt311Error::Io)));
}

#[test]
fn malformed_publications() {
    let client = Mqtt311Client::new((), "cid", 30);
    assert!(matches!(client.read_publish(0x30, &[0]), Err(Mqtt311Error::Protocol)));
    assert!(matches!(
        client.read_publish(0x30, &[0, 3, b'h', b'i']),
        Err(Mqtt311Error::Protocol)
    ));
    assert!(matches!(
        client.read_publish(0x30, &[0, 1, 0xFF]),
        Err(Mqtt311Error::Protocol)
    ));
    let empty = client.read_publish(0x3D, &[0, 0]).unwrap().unwrap();
    assert_eq!(empty.topic, "");
    assert_eq!(empty.payload, b"");
}

#[test]
fn publications_round_trip() {
    let client = Mqtt311Client::new((), "cid", 30);
    let packet = client.publish("gr\u{fc}n", &[1, 2, 3]).unwrap();
    let bytes = packet.as_slice();
    let got = client.read_publish(bytes[0], &bytes[2..]).unwrap().unwrap();
    assert_eq!(got.topic, "gr\u{fc}n");
    assert_eq!(got.payload, &[1, 2, 3]);
}

#[test]
fn topics() {
    assert_eq!(Topic::BROADCAST, "relaystar/b");
    assert_eq!(Topic::UNICAST_PREFIX, "relaystar/u/");
    let mut buf = [0x7Fu8; 26];
    let topic = Topic::unicast_for([0xAA, 0xBB, 0xCC, 0x0D, 0xEE, 0x1F], &mut buf).unwrap();
    assert_eq!(topic, "relaystar/u/aabbcc0dee1f");
    assert_eq!(&buf[24..], &[0x7F, 0x7F]);
    let mut small = [0u8; 23];
    assert_eq!(
        Topic::unicast_for([0; 6], &mut small),
        Err(PortError::FrameTooLarge)
    );
    let mut none = [0u8; 0];
    assert_eq!(Topic::for_addr(FrameAddr::Broadcast, &mut none), Ok("relaystar/b"));
    assert_eq!(
        Topic::for_addr(FrameAddr::Unicast([0; 6]), &mut none),
        Err(PortError::FrameTooLarge)
    );
}

#[test]
fn mqtt_port_wraps_its_client() {
    let mut port = MqttPort::new(7u8);
    assert_eq!(port.transport(), Transport::Mqtt);
    *port.inner() += 1;
    assert_eq!(port.published(true), Ok(()));
    assert_eq!(port.published(false), Err(PortError::Io));
    assert_eq!(port.into_inner(), 8);
}

// --- The link ---------------------------------------------------------------

#[test]
fn ipv4_addresses() {
    assert_eq!(parse_ipv4("192.168.1.10"), Some([192, 168, 1, 10]));
    assert_eq!(parse_ipv4("0.0.0.0"), Some([0, 0, 0, 0]));
    assert_eq!(parse_ipv4("255.255.255.255"), Some([255; 4]));
    assert_eq!(parse_ipv4("001.+2.03.4"), Some([1, 2, 3, 4]));
    for bad in [
        "", ".", "1.2.3", "1.2.3.4.5", "1.2.3.256", "1.2..4", "1.2.3.", ".1.2.3", "1.2.3.4.",
        "a.b.c.d", "1.2.3.-4", "1.2.3.+", "1.2.3.4 ", "\u{661}.2.3.4", "1.2.3.99999999999",
    ] {
        assert_eq!(parse_ipv4(bad), None, "{}", bad);
    }
}

#[test]
fn broker_ports() {
    assert_eq!(broker_port("1884"), 1884);
    assert_eq!(broker_port("65535"), 65535);
    assert_eq!(broker_port("65536"), 1883);
    assert_eq!(broker_port(""), 1883);
    assert_eq!(broker_port("mqtt"), 1883);
}

#[test]
fn link_states() {
    let go = |state| LinkMove { state, wait_secs: 0 };
    assert_eq!(next_link_state(LinkState::Tcp, true), go(LinkState::Connect));
    assert_eq!(next_link_state(LinkState::Connect, true), go(LinkState::Subscribe));
    assert_eq!(next_link_state(LinkState::Subscribe, true), go(LinkState::Steady));
    assert_eq!(next_link_state(LinkState::Steady, true), go(LinkState::Steady));
    assert_eq!(next_link_state(LinkState::Steady, false), go(LinkState::Tcp));
    for state in [LinkState::Tcp, LinkState::Connect, LinkState::Subscribe] {
        assert_eq!(
            next_link_state(state, false),
            LinkMove { state: LinkState::Tcp, wait_secs: 5 }
        );
    }
    assert_eq!(CLIENT_ID, "relaystar-card");
    assert_eq!(KEEPALIVE_SECS, 30);
}

#[test]
fn uplink_takes_its_topic_only() {
    assert_eq!(uplink_text(TOPIC_UPLINK, b"hello"), Some("hello"));
    assert_eq!(uplink_text(TOPIC_UPLINK, &[0xFF]), Some("<binary>"));
    assert_eq!(uplink_text(TOPIC_DOWNLINK, b"hello"), None);
    assert_eq!(uplink_text("", b"hello"), None);
}

#[test]
fn uplink_becomes_a_frame() {
    let mut bridge = Bridge::new();
    let raw = handle_uplink_text(&mut bridge, "hello from mqtt").unwrap();
    assert_eq!(raw.source, Transport::Mqtt);
    let m = Message::decode(raw.bytes.as_slice()).unwrap();
    assert_eq!(m.id, 0x0200_0000);
    assert_eq!(m.from, [2, 0, 0, 0, 0, 2]);
    assert_eq!(m.kind, MsgKind::Text);
    assert!(m.is_broadcast());
    assert_eq!(m.as_text(), Some("hello from mqtt"));
    // Too long: an error, but the id is used up.
    let long = "x".repeat(201);
    assert_eq!(
        handle_uplink_text(&mut bridge, &long).err(),
        Some(ProtoError::PayloadTooLarge)
    );
    assert_eq!(bridge.next_id(), 0x0200_0002);
}

#[test]
fn downlink_publishes_text() {
    let client = Mqtt311Client::new((), CLIENT_ID, KEEPALIVE_SECS);
    let m = Message::text(1, Transport::Lora, [1; 6], "beat").unwrap();
    let packet = downlink_packet(&client, &m).unwrap();
    let bytes = packet.as_slice();
    let got = client.read_publish(bytes[0], &bytes[2..]).unwrap().unwrap();
    assert_eq!(got.topic, "relaystar/downlink");
    assert_eq!(got.payload, b"beat");
    let m = Message::new(1, Transport::Lora, [1; 6], MsgKind::Telemetry, &[0xFF; 200]).unwrap();
    let packet = downlink_packet(&client, &m).unwrap();
    assert!(packet.as_slice().ends_with(b"<binary>"));
}

#[test]
fn topics_tell_nodes_apart() {
    let mut a = [0u8; 24];
    let mut b = [0u8; 24];
    let x = Topic::for_addr(FrameAddr::Unicast([0, 0, 0, 0, 0x12, 0x34]), &mut a).unwrap();
    let y = Topic::for_addr(FrameAddr::Unicast([0, 0, 0, 0, 0x12, 0x35]), &mut b).unwrap();
    assert_ne!(x, y);
    assert_ne!(x, Topic::BROADCAST);
}

#[test]
fn nothing_loops_through_the_broker() {
    let client = Mqtt311Client::new((), CLIENT_ID, KEEPALIVE_SECS);
    let m = Message::text(1, Transport::Lora, [1; 6], "beat").unwrap();
    let packet = downlink_packet(&client, &m).unwrap();
    let bytes = packet.as_slice();
    let echo = client.read_publish(bytes[0], &bytes[2..]).unwrap().unwrap();
    assert_eq!(uplink_text(echo.topic, echo.payload), None);
    let packet = client.publish(TOPIC_UPLINK, b"in").unwrap();
    let bytes = packet.as_slice();
    let got = client.read_publish(bytes[0], &bytes[2..]).unwrap().unwrap();
    assert_eq!(uplink_text(got.topic, got.payload), Some("in"));
}
