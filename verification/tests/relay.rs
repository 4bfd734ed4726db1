//! The relay engine.

use relaystar::error::{PortError, RelayError};
use relaystar::fragment::{Fragmenter, ReassembleOutcome, Reassembler, RejectReason};
use relaystar::port::FrameAddr;
use relaystar::proto::{
    Fragment, Message, MsgKind, ProtoError, Transport, BROADCAST_ADDR, MAX_FRAME, MAX_PAYLOAD,
};
use relaystar::receivers::ReceiverTable;
use relaystar::relay::{Destination, EmitAction, IngestOutcome, Relay};

// --- Fragmenter -------------------------------------------------------------

#[test]
fn small_payload_is_single_frame() {
    let msg = Fragmenter::prepare(
        1,
        4,
        Transport::Lora,
        [1; 6],
        BROADCAST_ADDR,
        MsgKind::Text,
        b"hi",
    )
    .unwrap();
    let frames = Fragmenter::split(msg, Transport::Lora, 42).unwrap();
    assert_eq!(frames.len(), 1);
    assert!(frames.as_slice()[0].frag.is_none());
}

#[test]
fn large_payload_fragments_for_lora() {
    // Use a payload bigger than LoRa's MTU but within MAX_PAYLOAD.
    let n = MAX_PAYLOAD; // 200 bytes
    let payload: Vec<u8> = (0..n).map(|i| i as u8).collect();
    let msg = Fragmenter::prepare(
        2,
        4,
        Transport::Lora,
        [1; 6],
        BROADCAST_ADDR,
        MsgKind::Telemetry,
        &payload,
    )
    .unwrap();
    let frames = Fragmenter::split(msg, Transport::Lora, 100).unwrap();
    let lora_mtu = Transport::Lora.max_payload();
    let expected = n.div_ceil(lora_mtu);
    assert_eq!(frames.len(), expected);
    for (i, f) in frames.as_slice().iter().enumerate() {
        let frag = f.frag.as_ref().expect("frame is a fragment");
        assert_eq!(frag.group_id, 100);
        assert_eq!(frag.seq as usize, i);
        assert_eq!(frag.total as usize, expected);
        assert!(f.payload.len() <= lora_mtu);
    }
    // Concatenation restores the original payload.
    let reassembled: Vec<u8> = frames
        .as_slice()
        .iter()
        .flat_map(|f| f.payload.as_slice().iter().copied())
        .collect();
    assert_eq!(reassembled, payload);
}

#[test]
fn mqtt_needs_no_fragmentation_for_small() {
    let msg = Fragmenter::prepare(
        3,
        4,
        Transport::Mqtt,
        [1; 6],
        BROADCAST_ADDR,
        MsgKind::Text,
        b"still small",
    )
    .unwrap();
    let frames = Fragmenter::split(msg, Transport::Mqtt, 1).unwrap();
    assert_eq!(frames.len(), 1);
    assert!(frames.as_slice()[0].frag.is_none());
}

#[test]
fn split_limits() {
    let msg = Message::new(1, Transport::Lora, [1; 6], MsgKind::Telemetry, &[9; 65]).unwrap();
    assert!(matches!(
        Fragmenter::split_for_mtu(msg.clone(), 0, 1),
        Err(RelayError::PayloadUnfragmentable)
    ));
    // 65 bytes in slices of 2 are 33 slices.
    assert!(matches!(
        Fragmenter::split_for_mtu(msg.clone(), 2, 1),
        Err(RelayError::PayloadUnfragmentable)
    ));
    let frames = Fragmenter::split_for_mtu(msg.clone(), 3, 1).unwrap();
    assert_eq!(frames.len(), 22);
    assert_eq!(frames.as_slice()[21].payload.len(), 2);
    assert_eq!(Fragmenter::split_for_mtu(msg, 65, 1).unwrap().len(), 1);
}

#[test]
fn a_slice_is_not_split_again() {
    let mut msg = Message::new(1, Transport::Lora, [1; 6], MsgKind::Telemetry, &[9; 65]).unwrap();
    msg.frag = Some(Fragment { group_id: 5, seq: 0, total: 2 });
    // It goes through where it fits.
    let frames = Fragmenter::split_for_mtu(msg.clone(), 65, 77).unwrap();
    assert_eq!(frames.len(), 1);
    assert!(frames.as_slice()[0] == msg);
    assert!(matches!(
        Fragmenter::split_for_mtu(msg, 64, 77),
        Err(RelayError::PayloadUnfragmentable)
    ));
}

#[test]
fn every_frame_fits_its_transport() {
    let payload: Vec<u8> = (0..MAX_PAYLOAD).map(|i| i as u8).collect();
    for frag in [None, Some(Fragment { group_id: 5, seq: 0, total: 2 })] {
        for len in [0, 1, 179, 180, 181, 199, 200] {
            for target in Transport::ALL {
                let mut msg =
                    Message::new(1, Transport::Lora, [1; 6], MsgKind::Telemetry, &payload[..len])
                        .unwrap();
                msg.frag = frag;
                match Fragmenter::split(msg, target, 7) {
                    Ok(frames) => {
                        let fits = target.max_payload();
                        assert!(frames.as_slice().iter().all(|f| f.payload.len() <= fits));
                    }
                    Err(e) => {
                        assert_eq!(e, RelayError::PayloadUnfragmentable);
                        assert!(frag.is_some() && len > target.max_payload());
                    }
                }
            }
        }
    }
}

#[test]
fn a_slice_that_does_not_fit_is_not_forwarded() {
    let mut relay = make_relay();
    let mut msg = slice(5, 0, 2, &[9; 181]);
    msg.ttl = 2;
    assert_eq!(
        relay.plan_forward(msg.clone(), Transport::Lora).err(),
        Some(RelayError::PayloadUnfragmentable)
    );
    assert_eq!(
        relay.forward(Transport::Lora, msg.clone()).err(),
        Some(RelayError::PayloadUnfragmentable)
    );
    assert_eq!(relay.plan_forward(msg, Transport::EspNow).unwrap().len(), 1);
}

#[test]
fn prepare_rejects_large_payload() {
    assert!(matches!(
        Fragmenter::prepare(1, 4, Transport::Lora, [1; 6], [2; 6], MsgKind::Text, &[0; 201]),
        Err(RelayError::Protocol(ProtoError::PayloadTooLarge))
    ));
}

// --- Reassembler ------------------------------------------------------------

#[test]
fn reassembler_completes_out_of_order() {
    let payload: Vec<u8> = (0..MAX_PAYLOAD).map(|i| i as u8).collect();
    let msg = Fragmenter::prepare(
        9,
        4,
        Transport::Lora,
        [1; 6],
        [2; 6],
        MsgKind::Telemetry,
        &payload,
    )
    .unwrap();
    let frames = Fragmenter::split(msg, Transport::Lora, 77).unwrap();
    assert!(frames.len() > 1);

    let mut reasm: Reassembler<2, 32> = Reassembler::new();

    // Feed in reverse order to prove index-based reassembly works.
    let n = frames.len();
    let mut collected: Option<Message> = None;
    let mut reversed: Vec<Message> = frames.as_slice().to_vec();
    reversed.reverse();
    for (i, frame) in reversed.into_iter().enumerate() {
        let is_last = i + 1 == n;
        match reasm.ingest(frame) {
            ReassembleOutcome::Buffered => assert!(!is_last),
            ReassembleOutcome::Complete(m) => {
                assert!(is_last);
                collected = Some(m);
            }
            ReassembleOutcome::Passthrough(_) => panic!("unexpected outcome: passthrough"),
            ReassembleOutcome::Dropped(r) => panic!("unexpected outcome: {:?}", r),
        }
    }

    let m = collected.expect("assembly completed");
    assert_eq!(m.payload.as_slice(), payload.as_slice());
    assert!(m.frag.is_none());
    assert_eq!(m.to, [2; 6]);
    assert_eq!(reasm.in_flight(), 0);
}

#[test]
fn reassembler_rejects_duplicate_slice() {
    let payload: Vec<u8> = vec![0xAB; 260];
    let msg = Fragmenter::prepare(
        11,
        4,
        Transport::Lora,
        [1; 6],
        BROADCAST_ADDR,
        MsgKind::Telemetry,
        // shorten to MAX_PAYLOAD so `Message::payload` fits pre-fragmentation
        &payload[..MAX_PAYLOAD],
    )
    .unwrap();
    let frames = Fragmenter::split(msg, Transport::Lora, 55).unwrap();
    let first = frames.as_slice()[0].clone();
    let mut reasm: Reassembler<2, 32> = Reassembler::new();
    assert!(matches!(reasm.ingest(first.clone()), ReassembleOutcome::Buffered));
    assert!(matches!(
        reasm.ingest(first),
        ReassembleOutcome::Dropped(RejectReason::DuplicateSlice)
    ));
}

fn slice(group_id: u32, seq: u16, total: u16, payload: &[u8]) -> Message {
    let mut m = Message::new(1, Transport::Lora, [1; 6], MsgKind::Telemetry, payload).unwrap();
    m.frag = Some(Fragment { group_id, seq, total });
    m
}

#[test]
fn reassembler_passes_whole_messages() {
    let mut reasm: Reassembler<1, 4> = Reassembler::default();
    let m = Message::text(1, Transport::Lora, [1; 6], "whole").unwrap();
    assert!(reasm.ingest(m.clone()) == ReassembleOutcome::Passthrough(m));
}

#[test]
fn reassembler_rejects_bad_headers() {
    let mut reasm: Reassembler<2, 4> = Reassembler::new();
    let bad = ReassembleOutcome::Dropped(RejectReason::BadHeader);
    assert!(reasm.ingest(slice(1, 0, 0, b"a")) == bad);
    assert!(reasm.ingest(slice(1, 2, 2, b"a")) == bad);
    assert!(reasm.ingest(slice(1, 0, 5, b"a")) == bad);
    assert_eq!(reasm.in_flight(), 0);
    let mut wide: Reassembler<1, 100> = Reassembler::new();
    assert!(wide.ingest(slice(1, 0, 65, b"a")) == bad);
    assert!(wide.ingest(slice(1, 63, 64, b"a")) == ReassembleOutcome::Buffered);
}

#[test]
fn reassembler_runs_out_of_slots() {
    let mut reasm: Reassembler<2, 4> = Reassembler::new();
    assert!(reasm.ingest(slice(1, 0, 2, b"a")) == ReassembleOutcome::Buffered);
    assert!(reasm.ingest(slice(2, 0, 2, b"b")) == ReassembleOutcome::Buffered);
    assert_eq!(reasm.in_flight(), 2);
    assert!(
        reasm.ingest(slice(3, 0, 2, b"c")) == ReassembleOutcome::Dropped(RejectReason::NoSlot)
    );
    // Evicting a group makes room.
    assert!(reasm.evict(1));
    assert!(!reasm.evict(1));
    assert_eq!(reasm.in_flight(), 1);
    assert!(reasm.ingest(slice(3, 0, 2, b"c")) == ReassembleOutcome::Buffered);
    // The group that stayed still completes.
    match reasm.ingest(slice(2, 1, 2, b"B")) {
        ReassembleOutcome::Complete(m) => assert_eq!(m.payload.as_slice(), b"bB"),
        _ => panic!("expected the group to complete"),
    }
}

#[test]
fn reassembler_rejects_oversized_payload() {
    let mut reasm: Reassembler<1, 4> = Reassembler::new();
    assert!(reasm.ingest(slice(1, 0, 2, &[1; 150])) == ReassembleOutcome::Buffered);
    assert!(
        reasm.ingest(slice(1, 1, 2, &[2; 51]))
            == ReassembleOutcome::Dropped(RejectReason::PayloadTooLarge)
    );
    assert_eq!(reasm.in_flight(), 0);
}

#[test]
fn reassembler_keeps_groups_apart() {
    let mut reasm: Reassembler<2, 4> = Reassembler::new();
    // The same group id with another number of slices is another group.
    assert!(reasm.ingest(slice(1, 1, 2, b"-two")) == ReassembleOutcome::Buffered);
    assert!(reasm.ingest(slice(1, 2, 3, b"-c")) == ReassembleOutcome::Buffered);
    assert_eq!(reasm.in_flight(), 2);
    match reasm.ingest(slice(1, 0, 2, b"one")) {
        ReassembleOutcome::Complete(m) => assert_eq!(m.payload.as_slice(), b"one-two"),
        _ => panic!("expected the first group to complete"),
    }
    assert!(reasm.ingest(slice(1, 0, 3, b"a")) == ReassembleOutcome::Buffered);
    match reasm.ingest(slice(1, 1, 3, b"-b")) {
        ReassembleOutcome::Complete(m) => assert_eq!(m.payload.as_slice(), b"a-b-c"),
        _ => panic!("expected the second group to complete"),
    }
}

// --- ReceiverTable ----------------------------------------------------------

#[test]
fn receivers_add_and_lookup() {
    let mut t: ReceiverTable<4> = ReceiverTable::new();
    assert!(t.add([1; 6], Transport::Lora).unwrap());
    assert!(t.add([1; 6], Transport::EspNow).unwrap());
    assert!(!t.add([1; 6], Transport::Lora).unwrap()); // already there
    let row = t.lookup([1; 6]).unwrap();
    let set = row.transports();
    let set = set.as_slice();
    assert!(set.contains(&Transport::Lora));
    assert!(set.contains(&Transport::EspNow));
    assert!(!set.contains(&Transport::Mqtt));
    assert!(t.remove_transport([1; 6], Transport::Lora));
    assert_eq!(
        t.lookup([1; 6]).unwrap().transports().as_slice(),
        &[Transport::EspNow][..]
    );
}

#[test]
fn receivers_table_full() {
    let mut t: ReceiverTable<2> = ReceiverTable::new();
    assert!(t.add([1; 6], Transport::Lora).is_ok());
    assert!(t.add([2; 6], Transport::Lora).is_ok());
    assert!(matches!(
        t.add([3; 6], Transport::Lora),
        Err(RelayError::ReceiverTableFull)
    ));
}

#[test]
fn receivers_learn_remove_and_clear() {
    let mut t: ReceiverTable<2> = ReceiverTable::default();
    assert!(t.is_empty());
    assert!(t.learn([1; 6], Transport::Mqtt));
    assert!(!t.learn([1; 6], Transport::Mqtt));
    assert!(t.learn([2; 6], Transport::Lora));
    assert!(!t.learn([3; 6], Transport::Lora)); // no room
    assert_eq!(t.len(), 2);
    // A known peer is still updated when the table is full.
    assert!(t.learn([2; 6], Transport::EspNow));
    assert_eq!(
        t.transports_for([2; 6]).unwrap().as_slice(),
        &[Transport::Lora, Transport::EspNow][..]
    );
    assert!(t.transports_for([3; 6]).is_none());
    // The last transport takes the row with it.
    assert!(!t.remove_transport([1; 6], Transport::Lora));
    assert!(t.remove_transport([1; 6], Transport::Mqtt));
    assert!(t.lookup([1; 6]).is_none());
    assert!(!t.remove_transport([1; 6], Transport::Mqtt));
    assert_eq!(t.iter().len(), 1);
    assert_eq!(t.iter()[0].addr, [2; 6]);
    assert!(t.remove([2; 6]));
    assert!(!t.remove([2; 6]));
    assert!(t.learn([4; 6], Transport::Lora));
    t.clear();
    assert!(t.is_empty());
}

#[test]
fn receivers_removal_moves_last_row() {
    let mut t: ReceiverTable<4> = ReceiverTable::new();
    for n in 1..=3 {
        assert!(t.learn([n; 6], Transport::Lora));
    }
    assert!(t.remove([1; 6]));
    let addrs: Vec<u8> = t.iter().iter().map(|r| r.addr[0]).collect();
    assert_eq!(addrs, [3, 2]);
    assert!(t.lookup([3; 6]).unwrap().reachable_via(Transport::Lora));
}

// --- Relay: planner API -----------------------------------------------------

fn make_relay() -> Relay<8, 2, 32> {
    let mut r: Relay<8, 2, 32> = Relay::new([0x02, 0, 0, 0, 0, 1], 0x0100_0000);
    r.register_port(Transport::Lora).unwrap();
    r.register_port(Transport::EspNow).unwrap();
    r
}

#[test]
fn plan_send_broadcast_fans_out_all_registered() {
    let mut relay = make_relay();
    let plan = relay
        .plan_send(MsgKind::Text, b"hi", Destination::Broadcast)
        .unwrap();
    let ports: Vec<Transport> = plan.as_slice().iter().map(|p| p.transport).collect();
    assert!(ports.contains(&Transport::Lora));
    assert!(ports.contains(&Transport::EspNow));
    assert!(!ports.contains(&Transport::Mqtt));
    for p in plan.as_slice() {
        assert!(matches!(p.addr, FrameAddr::Broadcast));
        assert_eq!(p.message.to, BROADCAST_ADDR);
    }
}

#[test]
fn plan_send_unicast_uses_only_receiver_transports() {
    let mut relay = make_relay();
    relay.add_receiver([2; 6], Transport::EspNow).unwrap();
    let plan = relay
        .plan_send(MsgKind::Ping, &[], Destination::Unicast([2; 6]))
        .unwrap();
    assert!(plan.as_slice().iter().all(|p| p.transport == Transport::EspNow));
    assert!(plan
        .as_slice()
        .iter()
        .all(|p| matches!(p.addr, FrameAddr::Unicast(a) if a == [2; 6])));
    assert!(plan.as_slice().iter().all(|p| p.message.to == [2; 6]));
    assert_eq!(plan.len(), 1);
}

#[test]
fn plan_send_unicast_unknown_receiver_errors() {
    let mut relay = make_relay();
    let err = relay
        .plan_send(MsgKind::Ping, &[], Destination::Unicast([9; 6]))
        .err()
        .unwrap();
    assert_eq!(err, RelayError::UnknownReceiver);
}

#[test]
fn plan_forward_zero_ttl_returns_empty() {
    let mut relay = make_relay();
    let mut msg = Message::new(1, Transport::Lora, [1; 6], MsgKind::Text, b"x").unwrap();
    msg.ttl = 0;
    let plan = relay.plan_forward(msg, Transport::EspNow).unwrap();
    assert!(plan.is_empty());
}

#[test]
fn plan_forward_fragments_when_needed() {
    let mut relay = make_relay();
    let payload: Vec<u8> = (0..MAX_PAYLOAD).map(|i| i as u8).collect();
    let msg = Message::unicast(
        7,
        Transport::Mqtt,
        [1; 6],
        [2; 6],
        MsgKind::Telemetry,
        &payload,
    )
    .unwrap();
    let plan = relay.plan_forward(msg, Transport::Lora).unwrap();
    assert!(plan.len() > 1);
    assert!(plan.as_slice().iter().all(|p| p.transport == Transport::Lora));
    assert!(plan
        .as_slice()
        .iter()
        .all(|p| matches!(p.addr, FrameAddr::Unicast(a) if a == [2; 6])));
}

#[test]
fn plan_send_without_ports_errors() {
    let mut relay: Relay<8, 2, 32> = Relay::new([1; 6], 0);
    assert!(!relay.has_ports());
    let err = relay
        .plan_send(MsgKind::Text, b"hi", Destination::Broadcast)
        .err();
    assert_eq!(err, Some(RelayError::NoPortsRegistered));
    relay.register_port(Transport::Mqtt).unwrap();
    assert!(relay.has_ports());
    assert!(relay.is_port_registered(Transport::Mqtt));
    assert!(!relay.is_port_registered(Transport::Lora));
    relay.unregister_port(Transport::Mqtt);
    assert!(!relay.has_ports());
    // No id was used up by the failed send.
    assert_eq!(relay.next_id(), 0);
}

#[test]
fn plan_send_ids_and_groups() {
    let mut relay = make_relay();
    let payload = [5u8; MAX_PAYLOAD];
    let plan = relay
        .plan_send(MsgKind::Telemetry, &payload, Destination::Broadcast)
        .unwrap();
    // Two slices on LoRa, one frame on ESP-NOW, all under one id.
    assert_eq!(plan.len(), 3);
    let frames = plan.as_slice();
    assert!(frames.iter().all(|p| p.message.id == 0x0100_0000));
    assert_eq!(
        frames[0].message.frag,
        Some(Fragment { group_id: 0x0100_0001, seq: 0, total: 2 })
    );
    assert_eq!(
        frames[1].message.frag,
        Some(Fragment { group_id: 0x0100_0001, seq: 1, total: 2 })
    );
    assert_eq!(frames[2].transport, Transport::EspNow);
    assert_eq!(frames[2].message.frag, None);
    assert_eq!(frames[2].message.origin, Transport::EspNow);
    assert_eq!(frames[2].message.from, [0x02, 0, 0, 0, 0, 1]);
    // One id for the message and one for each transport.
    assert_eq!(relay.next_id(), 0x0100_0003);
}

#[test]
fn plan_send_rejects_large_payload() {
    let mut relay = make_relay();
    let err = relay
        .plan_send(MsgKind::Telemetry, &[0; 201], Destination::Broadcast)
        .err();
    assert_eq!(err, Some(RelayError::Protocol(ProtoError::PayloadTooLarge)));
    assert_eq!(relay.next_id(), 0x0100_0001);
}

#[test]
fn unicast_needs_a_registered_transport() {
    let mut relay = make_relay();
    relay.add_receiver([2; 6], Transport::Mqtt).unwrap();
    // Known, but not on a registered transport.
    let err = relay
        .plan_send(MsgKind::Ping, &[], Destination::Unicast([2; 6]))
        .err();
    assert_eq!(err, Some(RelayError::NoSuchPort));
    let err = relay
        .send(Transport::Lora, MsgKind::Ping, &[], Destination::Unicast([2; 6]))
        .err();
    assert_eq!(err, Some(RelayError::NoSuchPort));
    // No id was used up.
    assert_eq!(relay.next_id(), 0x0100_0000);
    assert!(relay.learn_receiver([2; 6], Transport::Lora));
    let plan = relay
        .plan_send(MsgKind::Ping, &[], Destination::Unicast([2; 6]))
        .unwrap();
    assert_eq!(plan.len(), 1);
    assert_eq!(plan.as_slice()[0].transport, Transport::Lora);
    assert!(relay.remove_receiver([2; 6]));
    assert!(!relay.remove_receiver([2; 6]));
    assert!(relay.receivers().is_empty());
    assert_eq!(relay.self_addr(), [0x02, 0, 0, 0, 0, 1]);
}

#[test]
fn ids_start_over() {
    let mut relay: Relay<1, 1, 1> = Relay::new([1; 6], u32::MAX);
    assert_eq!(relay.next_id(), u32::MAX);
    assert_eq!(relay.next_id(), 0);
    assert_eq!(relay.next_id(), 1);
}

// --- Relay: one port --------------------------------------------------------

#[test]
fn send_emits_frame_by_frame() {
    let mut relay = make_relay();
    let payload: Vec<u8> = (0..MAX_PAYLOAD).map(|i| i as u8).collect();
    let mut emission = relay
        .send(Transport::Lora, MsgKind::Telemetry, &payload, Destination::Broadcast)
        .unwrap();
    let mut buf = [0u8; MAX_FRAME];
    let mut received: Vec<u8> = Vec::new();
    let mut action = emission.start(&mut buf);
    let total = loop {
        match action {
            EmitAction::Send { addr, len } => {
                assert_eq!(addr, FrameAddr::Broadcast);
                let m = Message::decode(&buf[..len]).unwrap();
                received.extend_from_slice(m.payload.as_slice());
                action = emission.after_send(Ok(()), &mut buf);
            }
            EmitAction::Done(result) => break result,
        }
    };
    assert_eq!(total, Ok(2));
    assert_eq!(received, payload);
}

#[test]
fn send_stops_at_port_error() {
    let mut relay = make_relay();
    let mut emission = relay
        .send(Transport::Lora, MsgKind::Telemetry, &[1; 200], Destination::Broadcast)
        .unwrap();
    let mut buf = [0u8; MAX_FRAME];
    assert!(matches!(emission.start(&mut buf), EmitAction::Send { .. }));
    assert_eq!(
        emission.after_send(Err(PortError::NotReady), &mut buf),
        EmitAction::Done(Err(RelayError::Port(PortError::NotReady)))
    );
}

#[test]
fn send_needs_room_for_the_frame() {
    let mut relay = make_relay();
    let emission = relay
        .send(Transport::Lora, MsgKind::Text, b"hi", Destination::Broadcast)
        .unwrap();
    let mut small = [0u8; 10];
    assert_eq!(
        emission.start(&mut small),
        EmitAction::Done(Err(RelayError::Protocol(ProtoError::BufferTooSmall)))
    );
}

#[test]
fn send_errors() {
    let mut relay = make_relay();
    assert_eq!(
        relay
            .send(Transport::Mqtt, MsgKind::Text, b"hi", Destination::Broadcast)
            .err(),
        Some(RelayError::NoSuchPort)
    );
    assert_eq!(
        relay
            .send(Transport::Lora, MsgKind::Text, b"hi", Destination::Unicast([9; 6]))
            .err(),
        Some(RelayError::UnknownReceiver)
    );
    assert_eq!(
        relay
            .send(Transport::Lora, MsgKind::Text, &[0; 201], Destination::Broadcast)
            .err(),
        Some(RelayError::Protocol(ProtoError::PayloadTooLarge))
    );
    let mut bare: Relay<1, 1, 1> = Relay::new([1; 6], 0);
    assert_eq!(
        bare.send(Transport::Lora, MsgKind::Text, b"hi", Destination::Broadcast)
            .err(),
        Some(RelayError::NoPortsRegistered)
    );
}

#[test]
fn forward_emits_relayed_message() {
    let mut relay = make_relay();
    let msg =
        Message::unicast(7, Transport::Mqtt, [1; 6], [2; 6], MsgKind::Text, b"on its way").unwrap();
    let mut emission = relay.forward(Transport::EspNow, msg.clone()).unwrap();
    let mut buf = [0u8; MAX_FRAME];
    match emission.start(&mut buf) {
        EmitAction::Send { addr, len } => {
            assert_eq!(addr, FrameAddr::Unicast([2; 6]));
            assert!(Some(Message::decode(&buf[..len]).unwrap()) == msg.prepared_for_relay());
        }
        EmitAction::Done(_) => panic!("expected a frame"),
    }
    assert_eq!(
        emission.after_send(Ok(()), &mut buf),
        EmitAction::Done(Ok(1))
    );
    // A message without hops left goes nowhere.
    let mut spent = msg;
    spent.ttl = 0;
    let emission = relay.forward(Transport::EspNow, spent).unwrap();
    assert_eq!(emission.start(&mut buf), EmitAction::Done(Ok(0)));
}

// --- Relay: ingest ----------------------------------------------------------

#[test]
fn ingest_deduplicates() {
    let mut relay = make_relay();
    let msg = Message::text(1, Transport::Lora, [9; 6], "yo").unwrap();
    let mut buf = [0u8; MAX_FRAME];
    let encoded = msg.encode(&mut buf).unwrap();

    let out = relay.ingest(Transport::Lora, encoded).unwrap();
    assert!(matches!(out, IngestOutcome::Complete(_)));
    let out = relay.ingest(Transport::Lora, encoded).unwrap();
    assert!(out == IngestOutcome::Duplicate);
}

#[test]
fn ingest_learns_receivers() {
    let mut relay = make_relay();
    let msg = Message::unicast(
        2,
        Transport::EspNow,
        [0xAA; 6],
        [0x02, 0, 0, 0, 0, 1],
        MsgKind::Text,
        b"hi",
    )
    .unwrap();
    let mut buf = [0u8; MAX_FRAME];
    let encoded = msg.encode(&mut buf).unwrap();

    let _ = relay.ingest(Transport::EspNow, encoded).unwrap();
    let row = relay.receivers().lookup([0xAA; 6]).expect("learned");
    assert!(row.reachable_via(Transport::EspNow));
}

#[test]
fn ingest_not_for_me() {
    let mut relay = make_relay();
    let msg = Message::unicast(
        3,
        Transport::Lora,
        [0xAA; 6],
        [0xBB; 6],
        MsgKind::Text,
        b"not for me",
    )
    .unwrap();
    let mut buf = [0u8; MAX_FRAME];
    let encoded = msg.encode(&mut buf).unwrap();
    let out = relay.ingest(Transport::Lora, encoded).unwrap();
    assert!(matches!(out, IngestOutcome::NotForMe(_)));
}

#[test]
fn ingest_reassembles_fragments() {
    let mut relay = make_relay();
    let payload: Vec<u8> = (0..MAX_PAYLOAD).map(|i| (i * 3) as u8).collect();
    let base = Message::unicast(
        42,
        Transport::Lora,
        [0xAA; 6],
        [0x02, 0, 0, 0, 0, 1],
        MsgKind::Telemetry,
        &payload,
    )
    .unwrap();
    let frames = Fragmenter::split(base, Transport::Lora, 42).unwrap();
    assert!(frames.len() > 1);

    let mut assembled: Option<Message> = None;
    for (i, f) in frames.as_slice().iter().enumerate() {
        let mut buf = [0u8; MAX_FRAME];
        let encoded = f.encode(&mut buf).unwrap();
        let out = relay.ingest(Transport::Lora, encoded).unwrap();
        let is_last = i + 1 == frames.len();
        match out {
            IngestOutcome::Buffered => assert!(!is_last),
            IngestOutcome::Complete(m) => {
                assert!(is_last);
                assembled = Some(m);
            }
            _ => panic!("unexpected outcome"),
        }
    }
    assert_eq!(assembled.unwrap().payload.as_slice(), payload.as_slice());
}

#[test]
fn ingest_rejects_garbage() {
    let mut relay = make_relay();
    assert_eq!(
        relay.ingest(Transport::Lora, &[1, 2, 3]).err(),
        Some(RelayError::Protocol(ProtoError::Decode))
    );
}

#[test]
fn ingest_does_not_learn_itself_or_broadcast() {
    let mut relay = make_relay();
    let mut buf = [0u8; MAX_FRAME];
    let own = Message::text(1, Transport::Mqtt, [0x02, 0, 0, 0, 0, 1], "me").unwrap();
    let encoded = own.encode(&mut buf).unwrap();
    match relay.ingest(Transport::Lora, encoded).unwrap() {
        // The message still says where it entered the mesh.
        IngestOutcome::Complete(m) => assert_eq!(m.origin, Transport::Mqtt),
        _ => panic!("expected the message"),
    }
    let odd = Message::text(2, Transport::Lora, [0xFF; 6], "all").unwrap();
    let encoded = odd.encode(&mut buf).unwrap();
    let _ = relay.ingest(Transport::Lora, encoded).unwrap();
    assert!(relay.receivers().is_empty());
}

#[test]
fn ingest_reports_dropped_slices() {
    let mut relay = make_relay();
    let mut buf = [0u8; MAX_FRAME];
    let bad = slice(1, 3, 2, b"x");
    let encoded = bad.encode(&mut buf).unwrap();
    assert!(
        relay.ingest(Transport::Lora, encoded).unwrap()
            == IngestOutcome::Dropped(RejectReason::BadHeader)
    );
}

#[test]
fn duplicates_are_remembered_for_a_while() {
    let mut relay = make_relay();
    let mut buf = [0u8; MAX_FRAME];
    let mut frame = |id: u32| -> Vec<u8> {
        let m = Message::text(id, Transport::Lora, [9; 6], "n").unwrap();
        m.encode(&mut buf).unwrap().to_vec()
    };
    let first = frame(1000);
    assert!(matches!(
        relay.ingest(Transport::Lora, &first).unwrap(),
        IngestOutcome::Complete(_)
    ));
    for id in 0..63 {
        let _ = relay.ingest(Transport::Lora, &frame(id)).unwrap();
    }
    // Sixty-three others later it is still known, over any transport.
    assert!(relay.ingest(Transport::EspNow, &first).unwrap() == IngestOutcome::Duplicate);
    let _ = relay.ingest(Transport::Lora, &frame(63)).unwrap();
    assert!(matches!(
        relay.ingest(Transport::Lora, &first).unwrap(),
        IngestOutcome::Complete(_)
    ));
}

#[test]
fn planned_frames_arrive_at_a_peer() {
    let mut sender: Relay<8, 2, 32> = Relay::new([0x0A; 6], 500);
    let mut receiver: Relay<8, 2, 32> = Relay::new([0x0B; 6], 900);
    sender.register_port(Transport::Lora).unwrap();
    sender.add_receiver([0x0B; 6], Transport::Lora).unwrap();
    let payload: Vec<u8> = (0..MAX_PAYLOAD).map(|i| (i * 7) as u8).collect();
    let plan = sender
        .plan_send(MsgKind::Telemetry, &payload, Destination::Unicast([0x0B; 6]))
        .unwrap();
    assert_eq!(plan.len(), 2);
    let mut buf = [0u8; MAX_FRAME];
    // Second slice first.
    let encoded = plan.as_slice()[1].message.encode(&mut buf).unwrap();
    assert!(receiver.ingest(Transport::Lora, encoded).unwrap() == IngestOutcome::Buffered);
    let encoded = plan.as_slice()[0].message.encode(&mut buf).unwrap();
    match receiver.ingest(Transport::Lora, encoded).unwrap() {
        IngestOutcome::Complete(m) => {
            assert_eq!(m.payload.as_slice(), &payload[..]);
            assert_eq!(m.from, [0x0A; 6]);
            assert_eq!(m.id, 500);
            assert!(m.frag.is_none());
        }
        _ => panic!("expected the message"),
    }
    // The receiver can answer.
    assert!(receiver
        .receivers()
        .lookup([0x0A; 6])
        .unwrap()
        .reachable_via(Transport::Lora));
}

#[test]
fn outcomes_and_frames_compare_by_content() {
    let m = Message::text(1, Transport::Lora, [1; 6], "a").unwrap();
    let n = Message::text(1, Transport::Lora, [1; 6], "b").unwrap();
    assert!(IngestOutcome::Complete(m.clone()) == IngestOutcome::Complete(m.clone()));
    assert!(IngestOutcome::Complete(m.clone()) != IngestOutcome::Complete(n.clone()));
    assert!(IngestOutcome::Complete(m.clone()) != IngestOutcome::NotForMe(m.clone()));
    let out = IngestOutcome::NotForMe(m.clone());
    assert!(out.clone() == out);
    let mut relay = make_relay();
    let plan = relay.plan_forward(m, Transport::Lora).unwrap();
    let frame = &plan.as_slice()[0];
    assert!(frame.clone() == *frame);
    let mut other = frame.clone();
    other.addr = FrameAddr::Unicast([1; 6]);
    assert!(other != *frame);
}

#[test]
fn relay_error_texts() {
    let cases = [
        (RelayError::UnknownReceiver, "unknown unicast receiver"),
        (RelayError::NoSuchPort, "no port registered for target transport"),
        (RelayError::NoPortsRegistered, "no transport ports registered"),
        (RelayError::PayloadUnfragmentable, "payload cannot be fragmented"),
        (
            RelayError::from(ProtoError::Decode),
            "protocol error: decode error",
        ),
        (
            RelayError::from(PortError::FrameTooLarge),
            "port error: frame too large for transport",
        ),
        (RelayError::ReceiverTableFull, "receiver table full"),
        (RelayError::ReassemblyFailed, "fragment reassembly failed"),
    ];
    for (error, text) in cases {
        assert_eq!(error.describe(), text);
    }
    assert_eq!(PortError::Io.describe(), "transport i/o error");
    assert_eq!(PortError::NotReady.describe(), "transport not ready");
    assert_eq!(PortError::UnsupportedAddr.describe(), "unsupported addressing mode");
}

#[test]
fn send_agrees_with_plan() {
    let make = || {
        let mut r: Relay<8, 2, 32> = Relay::new([1; 6], 40);
        r.register_port(Transport::Lora).unwrap();
        r
    };
    let payload = [3u8; 190];
    let mut planner = make();
    let plan = planner
        .plan_send(MsgKind::Telemetry, &payload, Destination::Broadcast)
        .unwrap();
    let mut direct = make();
    let mut emission = direct
        .send(Transport::Lora, MsgKind::Telemetry, &payload, Destination::Broadcast)
        .unwrap();
    let mut buf = [0u8; MAX_FRAME];
    let mut action = emission.start(&mut buf);
    for planned in plan.as_slice() {
        match action {
            EmitAction::Send { addr, len } => {
                assert_eq!(addr, planned.addr);
                assert!(Message::decode(&buf[..len]).unwrap() == planned.message);
                action = emission.after_send(Ok(()), &mut buf);
            }
            EmitAction::Done(_) => panic!("expected another frame"),
        }
    }
    assert_eq!(action, EmitAction::Done(Ok(plan.len())));
    assert_eq!(planner.next_id(), direct.next_id());
}

#[test]
fn id_bases_keep_ids_apart() {
    let mut node: Relay<1, 1, 1> = Relay::new([1; 6], 0x0100_0000);
    let mut card: Relay<1, 1, 1> = Relay::new([2; 6], 0x0200_0000);
    let a: Vec<u32> = (0..100).map(|_| node.next_id()).collect();
    let b: Vec<u32> = (0..100).map(|_| card.next_id()).collect();
    assert_eq!(a[99], 0x0100_0063);
    assert!(a.iter().all(|id| !b.contains(id)));
}

#[test]
fn forwarded_frames_arrive_at_a_peer() {
    let mut relay = make_relay();
    let mut receiver: Relay<8, 2, 32> = Relay::new([0x0B; 6], 900);
    let payload: Vec<u8> = (0..MAX_PAYLOAD).map(|i| (i * 5) as u8).collect();
    let m = Message::unicast(
        70,
        Transport::Mqtt,
        [0x0A; 6],
        [0x0B; 6],
        MsgKind::Telemetry,
        &payload,
    )
    .unwrap();
    let plan = relay.plan_forward(m.clone(), Transport::Lora).unwrap();
    assert_eq!(plan.len(), 2);
    let mut buf = [0u8; MAX_FRAME];
    // Second slice first, over another transport.
    let encoded = plan.as_slice()[1].message.encode(&mut buf).unwrap();
    assert!(receiver.ingest(Transport::EspNow, encoded).unwrap() == IngestOutcome::Buffered);
    let encoded = plan.as_slice()[0].message.encode(&mut buf).unwrap();
    let relayed = m.prepared_for_relay().unwrap();
    assert!(
        receiver.ingest(Transport::EspNow, encoded).unwrap() == IngestOutcome::Complete(relayed)
    );
}
