//! Messages, frames and the seen cache.

use relaystar::proto::{
    Fragment, Message, MsgKind, ProtoError, Transport, BROADCAST_ADDR, DEFAULT_TTL, MAX_FRAME,
    MAX_PAYLOAD,
};
use relaystar::port::FrameAddr;
use relaystar::seen::SeenCache;

#[test]
fn round_trip_text() {
    let msg = Message::text(42, Transport::Lora, [1, 2, 3, 4, 5, 6], "hello relay").unwrap();
    let mut buf = [0u8; MAX_FRAME];
    let encoded = msg.encode(&mut buf).unwrap();
    let decoded = Message::decode(encoded).unwrap();
    assert!(decoded == msg);
    assert_eq!(decoded.as_text(), Some("hello relay"));
}

#[test]
fn ttl_relay() {
    let msg = Message::text(1, Transport::Mqtt, [0; 6], "hi").unwrap();
    let relayed = msg.prepared_for_relay().unwrap();
    assert_eq!(relayed.ttl, DEFAULT_TTL - 1);

    let mut m = msg.clone();
    m.ttl = 0;
    assert!(m.prepared_for_relay().is_none());
}

#[test]
fn dedup_cache() {
    let mut cache: SeenCache<4> = SeenCache::new();
    assert!(cache.check_and_insert(10));
    assert!(!cache.check_and_insert(10));
    assert!(cache.check_and_insert(11));
    // Overflow eviction: fill past capacity.
    cache.insert(12);
    cache.insert(13);
    cache.insert(14); // evicts id 10
    assert!(cache.check_and_insert(10)); // 10 was evicted -> treated as new
}

#[test]
fn payload_too_large() {
    let big = [0u8; MAX_PAYLOAD + 1];
    assert!(
        Message::new(1, Transport::Lora, [0; 6], MsgKind::Telemetry, &big)
            == Err(ProtoError::PayloadTooLarge)
    );
}

#[test]
fn largest_payload_is_accepted() {
    let full = [7u8; MAX_PAYLOAD];
    let msg = Message::new(1, Transport::Lora, [0; 6], MsgKind::Telemetry, &full).unwrap();
    assert_eq!(msg.payload.as_slice(), &full[..]);
    assert_eq!(msg.to, BROADCAST_ADDR);
    assert!(msg.is_broadcast());
    assert!(msg.frag.is_none());
}

#[test]
fn frame_bytes_of_a_small_message() {
    let msg = Message::unicast(
        300,
        Transport::Mqtt,
        [1, 2, 3, 4, 5, 6],
        [7, 8, 9, 10, 11, 12],
        MsgKind::Pong,
        b"ab",
    )
    .unwrap();
    let mut buf = [0u8; MAX_FRAME];
    let encoded = msg.encode(&mut buf).unwrap();
    assert_eq!(
        &encoded[..],
        &[
            0xAC, 0x02, // id 300
            4,    // hop budget
            1,    // origin
            1, 2, 3, 4, 5, 6, // from
            7, 8, 9, 10, 11, 12, // to
            2,  // kind
            2, b'a', b'b', // payload
            0,    // no fragment header
        ][..]
    );
}

#[test]
fn frame_bytes_of_a_slice() {
    let mut msg = Message::new(1, Transport::EspNow, [0; 6], MsgKind::Telemetry, &[]).unwrap();
    msg.frag = Some(Fragment { group_id: 128, seq: 1, total: 2 });
    let mut buf = [0u8; MAX_FRAME];
    let encoded = msg.encode(&mut buf).unwrap();
    assert_eq!(
        &encoded[..],
        &[
            1, 4, 2, 0, 0, 0, 0, 0, 0, 255, 255, 255, 255, 255, 255, 3, 0, 1, 0x80, 0x01, 1, 2
        ][..]
    );
    let decoded = Message::decode(encoded).unwrap();
    assert_eq!(decoded.frag, Some(Fragment { group_id: 128, seq: 1, total: 2 }));
}

#[test]
fn largest_frame_fits() {
    let mut msg = Message::new(
        u32::MAX,
        Transport::EspNow,
        [0xFF; 6],
        MsgKind::Telemetry,
        &[0xFF; MAX_PAYLOAD],
    )
    .unwrap();
    msg.ttl = 255;
    msg.frag = Some(Fragment { group_id: u32::MAX, seq: u16::MAX, total: u16::MAX });
    let mut buf = [0u8; MAX_FRAME];
    let encoded = msg.encode(&mut buf).unwrap();
    assert_eq!(encoded.len(), 234);
    assert!(Message::decode(encoded).unwrap() == msg);
}

#[test]
fn encode_needs_room() {
    let msg = Message::text(1, Transport::Lora, [0; 6], "hi").unwrap();
    let mut small = [0u8; 19];
    assert!(matches!(msg.encode(&mut small), Err(ProtoError::BufferTooSmall)));
    let mut exact = [0u8; 20];
    assert_eq!(msg.encode(&mut exact).unwrap().len(), 20);
}

#[test]
fn encode_leaves_the_rest_of_the_buffer() {
    let msg = Message::text(1, Transport::Lora, [0; 6], "hi").unwrap();
    let mut buf = [0x55u8; 24];
    let n = msg.encode(&mut buf).unwrap().len();
    assert_eq!(n, 20);
    assert_eq!(&buf[20..], &[0x55u8; 4][..]);
}

#[test]
fn decode_rejects_garbage() {
    assert!(Message::decode(&[]) == Err(ProtoError::Decode));
    let msg = Message::text(1, Transport::Lora, [0; 6], "hi").unwrap();
    let mut buf = [0u8; MAX_FRAME];
    let n = msg.encode(&mut buf).unwrap().len();
    // Cut short.
    assert!(Message::decode(&buf[..n - 1]) == Err(ProtoError::Decode));
    // No such transport.
    let mut bad = buf;
    bad[2] = 3;
    assert!(Message::decode(&bad[..n]) == Err(ProtoError::Decode));
    // No such kind.
    let mut bad = buf;
    bad[15] = 4;
    assert!(Message::decode(&bad[..n]) == Err(ProtoError::Decode));
    // Neither with nor without a fragment header.
    let mut bad = buf;
    bad[n - 1] = 2;
    assert!(Message::decode(&bad[..n]) == Err(ProtoError::Decode));
    // What follows the frame does not matter.
    assert!(Message::decode(&buf).unwrap() == msg);
}

#[test]
fn decode_rejects_oversized_payload() {
    let mut frame = vec![1, 4, 0];
    frame.extend_from_slice(&[0; 6]);
    frame.extend_from_slice(&[0xFF; 6]);
    frame.push(3);
    frame.extend_from_slice(&[0xC9, 0x01]); // 201 bytes follow
    frame.extend_from_slice(&[0; 201]);
    frame.push(0);
    assert!(Message::decode(&frame) == Err(ProtoError::Decode));
}

#[test]
fn decode_accepts_padded_numbers() {
    // The id 1, with an empty second group.
    let mut frame = vec![0x81, 0x00, 4, 0];
    frame.extend_from_slice(&[0; 6]);
    frame.extend_from_slice(&[0xFF; 6]);
    frame.extend_from_slice(&[0, 0, 0]);
    assert_eq!(Message::decode(&frame).unwrap().id, 1);
    // A sixth group is one too many.
    let mut frame = vec![0x81, 0x80, 0x80, 0x80, 0x80, 0x00, 4, 0];
    frame.extend_from_slice(&[0; 15]);
    assert!(Message::decode(&frame) == Err(ProtoError::Decode));
    // The fifth group has room for four bits.
    let mut frame = vec![0x80, 0x80, 0x80, 0x80, 0x10, 4, 0];
    frame.extend_from_slice(&[0; 15]);
    assert!(Message::decode(&frame) == Err(ProtoError::Decode));
    let mut frame = vec![0xFF, 0xFF, 0xFF, 0xFF, 0x0F, 4, 0];
    frame.extend_from_slice(&[0; 15]);
    assert_eq!(Message::decode(&frame).unwrap().id, u32::MAX);
}

#[test]
fn binary_payload_is_no_text() {
    let msg = Message::new(1, Transport::Lora, [0; 6], MsgKind::Telemetry, &[0xFF, 0xFE]).unwrap();
    assert_eq!(msg.as_text(), None);
    let msg = Message::text(1, Transport::Lora, [0; 6], "gr\u{fc}n \u{2713}").unwrap();
    assert_eq!(msg.as_text(), Some("gr\u{fc}n \u{2713}"));
    assert_eq!(msg.payload.len(), 9);
}

#[test]
fn hop_budget_is_spent_one_by_one() {
    let mut msg = Message::text(1, Transport::Lora, [0; 6], "x").unwrap();
    let mut hops = 0;
    while let Some(next) = msg.prepared_for_relay() {
        msg = next;
        hops += 1;
    }
    assert_eq!(hops, DEFAULT_TTL);
    assert_eq!(msg.ttl, 0);
    assert_eq!(msg.as_text(), Some("x"));
}

#[test]
fn error_texts() {
    assert_eq!(ProtoError::PayloadTooLarge.describe(), "payload too large");
    assert_eq!(ProtoError::BufferTooSmall.describe(), "buffer too small");
    assert_eq!(ProtoError::Decode.describe(), "decode error");
}

#[test]
fn transport_names_and_limits() {
    let names: Vec<&str> = Transport::ALL.iter().map(|t| t.as_str()).collect();
    assert_eq!(names, ["lora", "mqtt", "espnow"]);
    assert_eq!(Transport::Lora.max_payload(), 180);
    assert_eq!(Transport::EspNow.max_payload(), 200);
    assert_eq!(Transport::Mqtt.max_payload(), 4096);
}

#[test]
fn seen_cache_forgets_oldest_first() {
    let mut cache: SeenCache<3> = SeenCache::default();
    for id in 1..=5 {
        assert!(cache.check_and_insert(id));
    }
    assert!(!cache.contains(1));
    assert!(!cache.contains(2));
    assert!(cache.contains(3));
    assert!(cache.contains(4));
    assert!(cache.contains(5));
    assert!(!cache.contains(0));
}

#[test]
fn frame_addr_round_trip() {
    assert_eq!(FrameAddr::from_bytes([0xFF; 6]), FrameAddr::Broadcast);
    assert_eq!(FrameAddr::Broadcast.as_bytes(), [0xFF; 6]);
    let a = [0xFF, 0xFF, 0xFF, 0xFF, 0xFF, 0xFE];
    assert_eq!(FrameAddr::from_bytes(a), FrameAddr::Unicast(a));
    assert_eq!(FrameAddr::Unicast(a).as_bytes(), a);
}
