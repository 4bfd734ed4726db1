//! The terminal and the LoRa node.

use relaystar::bridge::{Bridge, DisplayLine, RawFrame, CARD_ADDR, CARD_ID_BASE};
use relaystar::display::{Color, Ui};
use relaystar::error::{PortError, RelayError};
use relaystar::fragment::RejectReason;
use relaystar::keyboard::{decode_key, KeyAction, KeyEvent, Keyboard, PollStep};
use relaystar::mqtt_link::{downlink_packet, handle_uplink_text};
use relaystar::node::{
    counters_line, LoraNode, NodeEvent, NodeFailure, StatusScreen, Transmission, NODE_ADDR,
};
use relaystar::port::FrameAddr;
use relaystar::ports::espnow::{
    on_outbound, on_received, peer_to_register, EspNowAction, EspNowPort,
};
use relaystar::ports::lora::{
    map_bandwidth, map_coding_rate, map_spreading_factor, max_frame_len, next_lora_action,
    packet_settings, Bandwidth, CodingRate, LoraAction, LoraEvent, LoraModulationParams, LoraPort,
    SpreadingFactor,
};
use relaystar::ports::mqtt::Mqtt311Client;
use relaystar::proto::{Fragment, Message, MsgKind, ProtoError, Transport, BROADCAST_ADDR, MAX_FRAME};
use relaystar::relay::{Destination, IngestOutcome, PlannedFrame, Relay};

type CardRelay = Relay<16, 4, 32>;
type NodeRelay = Relay<8, 2, 32>;

fn encoded(m: &Message) -> Vec<u8> {
    let mut buf = [0u8; MAX_FRAME];
    m.encode(&mut buf).unwrap().to_vec()
}

fn raw(source: Transport, m: &Message) -> RawFrame {
    RawFrame::new(source, &encoded(m)).unwrap()
}

#[test]
fn matches_cardputer_usage() {
    let mut relay: CardRelay = CardRelay::new([0x02, 0, 0, 0, 0, 2], 0x0200_0000);

    let _ = relay.register_port(Transport::Lora);
    let _ = relay.register_port(Transport::EspNow);
    let _ = relay.register_port(Transport::Mqtt);

    // send_local_text path
    let plan = match relay.plan_send(MsgKind::Text, b"hi", Destination::Broadcast) {
        Ok(p) => p,
        Err(RelayError::NoPortsRegistered) => panic!("registered above"),
        Err(_) => panic!(),
    };
    for PlannedFrame {
        transport,
        addr,
        message,
    } in plan.as_slice()
    {
        let _ = (transport, addr, message);
    }

    // fanout_forward path
    let msg = Message::text(1, Transport::Lora, [0xAA; 6], "yo").unwrap();
    for target in Transport::ALL {
        if target == Transport::Lora {
            continue;
        }
        let _ = relay.plan_forward(msg.clone(), target).unwrap();
    }

    // ingest path
    let mut buf = [0u8; MAX_FRAME];
    let encoded = msg.encode(&mut buf).unwrap();
    match relay.ingest(Transport::Lora, encoded).unwrap() {
        IngestOutcome::Complete(_)
        | IngestOutcome::NotForMe(_)
        | IngestOutcome::Buffered
        | IngestOutcome::Duplicate
        | IngestOutcome::Dropped(_) => {}
        _ => {}
    }

    // next_id + FrameAddr destructuring
    let _id = relay.next_id();
    let _bc: FrameAddr = FrameAddr::Broadcast;
}

/// Mirrors the call sites of the LoRa node.
#[test]
fn matches_lora_node_usage() {
    let mut relay: NodeRelay = NodeRelay::new([0x02, 0, 0, 0, 0, 1], 0x0100_0000);
    let _ = relay.register_port(Transport::Lora);

    // First: a Ping arrives from a peer we've never heard of. `ingest` learns
    // the sender, so a subsequent unicast Pong resolves.
    let ping = Message::unicast(
        99,
        Transport::Lora,
        [0xAA; 6],
        [0x02, 0, 0, 0, 0, 1],
        MsgKind::Ping,
        b"ping",
    )
    .unwrap();
    let mut buf = [0u8; MAX_FRAME];
    let encoded = ping.encode(&mut buf).unwrap();
    let outcome = relay.ingest(Transport::Lora, encoded).unwrap();
    let peer = match outcome {
        IngestOutcome::Complete(m) => m.from,
        _ => panic!("expected Complete for a direct-addressed ping"),
    };

    // Now: plan a unicast Pong. This should succeed because ingest learned the
    // sender's transport.
    let plan = relay
        .plan_send(MsgKind::Pong, b"pong", Destination::Unicast(peer))
        .unwrap();
    assert!(!plan.is_empty());
    for f in plan.as_slice() {
        assert_eq!(f.transport, Transport::Lora);
        assert!(matches!(f.addr, FrameAddr::Unicast(a) if a == peer));
    }

    // The lora-node fallback shape: on `UnknownReceiver`, broadcast instead.
    // Force a miss with a peer we've never seen.
    let missing_peer = [0xBB; 6];
    match relay.plan_send(MsgKind::Pong, b"pong", Destination::Unicast(missing_peer)) {
        Ok(_) => panic!("should have been UnknownReceiver"),
        Err(RelayError::UnknownReceiver) => {
            let broadcast = relay
                .plan_send(MsgKind::Pong, b"pong", Destination::Broadcast)
                .unwrap();
            assert!(!broadcast.is_empty());
        }
        Err(e) => panic!("unexpected error: {}", e.describe()),
    }

    // Heartbeat: broadcast text.
    let hb = relay
        .plan_send(MsgKind::Text, b"node hb #0", Destination::Broadcast)
        .unwrap();
    for frame in hb.as_slice() {
        // The lora-node send_reply filters by transport before touching the
        // radio; assert that at least the LoRa target survives that filter.
        if frame.transport == Transport::Lora {
            let _ = &frame.message;
        }
    }
}

// --- Bridge -----------------------------------------------------------------

fn bridge() -> Bridge {
    let mut b = Bridge::new();
    b.advertise();
    b
}

#[test]
fn bridge_relays_broadcasts() {
    let mut b = bridge();
    let m = Message::text(1, Transport::Lora, [9; 6], "heartbeat").unwrap();
    let routing = b.on_frame(&raw(Transport::Lora, &m)).unwrap();
    let line = routing.line.unwrap();
    assert_eq!(line.text.as_str(), "heartbeat");
    assert_eq!(line.origin, Transport::Lora);
    assert!(routing.dropped.is_none());
    let frames = routing.frames.as_slice();
    let targets: Vec<Transport> = frames.iter().map(|f| f.transport).collect();
    assert_eq!(targets, [Transport::Mqtt, Transport::EspNow]);
    assert!(frames.iter().all(|f| f.message.ttl == 3));
    // What comes back is dropped.
    let echo = b.on_frame(&raw(Transport::EspNow, &frames[1].message)).unwrap();
    assert!(echo.line.is_none());
    assert!(echo.frames.is_empty());
}

#[test]
fn bridge_drops_echoed_slices() {
    let mut b = bridge();
    let m =
        Message::new(1, Transport::Mqtt, [9; 6], MsgKind::Telemetry, &[b'x'; 200]).unwrap();
    let routing = b.on_frame(&raw(Transport::Mqtt, &m)).unwrap();
    let frames = routing.frames.as_slice();
    // Two slices on LoRa, one frame on ESP-NOW.
    assert_eq!(frames.len(), 3);
    for round in 0..3 {
        for over in Transport::ALL {
            for f in frames {
                let echo = b.on_frame(&raw(over, &f.message)).unwrap();
                assert!(echo.line.is_none(), "round {}", round);
                assert!(echo.frames.is_empty());
            }
        }
    }
    let again = b.on_frame(&raw(Transport::Mqtt, &m)).unwrap();
    assert!(again.line.is_none() && again.frames.is_empty());
}

#[test]
fn bridge_drops_echoes_of_reassembled_messages() {
    let mut b = bridge();
    // A message in two slices, of which the second arrives first.
    let mut first = Message::new(7, Transport::Lora, [9; 6], MsgKind::Text, &[b'a'; 150]).unwrap();
    let mut second = Message::new(7, Transport::Lora, [9; 6], MsgKind::Text, &[b'b'; 50]).unwrap();
    first.frag = Some(Fragment { group_id: 70, seq: 0, total: 2 });
    second.frag = Some(Fragment { group_id: 70, seq: 1, total: 2 });
    let routing = b.on_frame(&raw(Transport::EspNow, &second)).unwrap();
    assert!(routing.line.is_none() && routing.frames.is_empty());
    let routing = b.on_frame(&raw(Transport::EspNow, &first)).unwrap();
    assert!(routing.line.is_some());
    let frames = routing.frames.as_slice();
    // Two slices on LoRa, one frame on MQTT.
    assert_eq!(frames.len(), 3);
    for over in Transport::ALL {
        for f in frames {
            let echo = b.on_frame(&raw(over, &f.message)).unwrap();
            assert!(echo.line.is_none() && echo.frames.is_empty());
        }
        for slice in [&first, &second] {
            let echo = b.on_frame(&raw(over, slice)).unwrap();
            assert!(echo.line.is_none() && echo.frames.is_empty());
        }
    }
}

#[test]
fn mesh_text_reaches_mqtt() {
    for source in [Transport::Lora, Transport::EspNow] {
        let mut b = bridge();
        let m = Message::text(1, source, [9; 6], "node hb #3").unwrap();
        let routing = b.on_frame(&raw(source, &m)).unwrap();
        let frames = routing.frames.as_slice();
        let out: Vec<&PlannedFrame> =
            frames.iter().filter(|f| f.transport == Transport::Mqtt).collect();
        assert_eq!(out.len(), 1);
        assert!(Some(out[0].message.clone()) == m.prepared_for_relay());
        let client = Mqtt311Client::new((), "cid", 30);
        let packet = downlink_packet(&client, &out[0].message).unwrap();
        let bytes = packet.as_slice();
        let got = client.read_publish(bytes[0], &bytes[2..]).unwrap().unwrap();
        assert_eq!(got.topic, "relaystar/downlink");
        assert_eq!(got.payload, b"node hb #3");
    }
}

#[test]
fn bridge_shows_where_a_message_entered() {
    let mut b = bridge();
    let m = Message::text(1, Transport::Mqtt, [9; 6], "far").unwrap();
    let routing = b.on_frame(&raw(Transport::Lora, &m)).unwrap();
    assert_eq!(routing.line.unwrap().origin, Transport::Mqtt);
    // It is not sent back to where it came from.
    let frames = routing.frames.as_slice();
    assert!(frames.iter().all(|f| f.transport != Transport::Lora));
    assert!(frames.iter().all(|f| f.message.origin == Transport::Mqtt));
}

#[test]
fn bridge_keeps_its_own_mail() {
    let mut b = bridge();
    let m =
        Message::unicast(1, Transport::Lora, [9; 6], CARD_ADDR, MsgKind::Text, b"for you").unwrap();
    let routing = b.on_frame(&raw(Transport::Lora, &m)).unwrap();
    assert_eq!(routing.line.unwrap().text.as_str(), "for you");
    assert!(routing.frames.is_empty());
}

#[test]
fn bridge_passes_on_other_mail() {
    let mut b = bridge();
    let m =
        Message::unicast(1, Transport::Mqtt, [9; 6], [8; 6], MsgKind::Text, b"for them").unwrap();
    let routing = b.on_frame(&raw(Transport::Mqtt, &m)).unwrap();
    assert!(routing.line.is_none());
    let frames = routing.frames.as_slice();
    assert_eq!(frames.len(), 2);
    assert_eq!(frames[0].transport, Transport::Lora);
    assert_eq!(frames[1].transport, Transport::EspNow);
    assert!(frames.iter().all(|f| f.addr == FrameAddr::Unicast([8; 6])));
}

#[test]
fn bridge_reports_trouble() {
    let mut b = bridge();
    let garbage = RawFrame::new(Transport::Lora, &[1, 2, 3]).unwrap();
    assert_eq!(
        b.on_frame(&garbage).err(),
        Some(RelayError::Protocol(ProtoError::Decode))
    );
    let mut m = Message::text(1, Transport::Lora, [9; 6], "x").unwrap();
    m.frag = Some(Fragment { group_id: 1, seq: 0, total: 0 });
    let routing = b.on_frame(&raw(Transport::Lora, &m)).unwrap();
    assert_eq!(routing.dropped, Some(RejectReason::BadHeader));
    assert!(routing.line.is_none());
    // A message without hops left is shown but not forwarded.
    let mut m = Message::text(2, Transport::Lora, [9; 6], "last").unwrap();
    m.ttl = 0;
    let routing = b.on_frame(&raw(Transport::Lora, &m)).unwrap();
    assert!(routing.line.is_some());
    assert!(routing.frames.is_empty());
}

#[test]
fn bridge_broadcasts_local_text() {
    let mut b = Bridge::new();
    assert_eq!(
        b.send_local_text("hi").err(),
        Some(RelayError::NoPortsRegistered)
    );
    b.advertise();
    let routing = b.send_local_text("hi").unwrap();
    assert_eq!(routing.line.unwrap().text.as_str(), "hi");
    let frames = routing.frames.as_slice();
    let targets: Vec<Transport> = frames.iter().map(|f| f.transport).collect();
    assert_eq!(targets, [Transport::Lora, Transport::Mqtt, Transport::EspNow]);
    assert!(frames.iter().all(|f| f.message.id == CARD_ID_BASE));
    assert!(frames.iter().all(|f| f.message.to == BROADCAST_ADDR));
    assert!(frames.iter().all(|f| f.message.from == CARD_ADDR));
}

#[test]
fn uplink_reaches_the_mesh() {
    let mut b = bridge();
    let frame = handle_uplink_text(&mut b, "hello from mqtt").unwrap();
    let routing = b.on_frame(&frame).unwrap();
    assert_eq!(routing.line.unwrap().text.as_str(), "hello from mqtt");
    let frames = routing.frames.as_slice();
    assert_eq!(frames.len(), 2);
    assert_eq!(frames[0].transport, Transport::Lora);
    assert_eq!(frames[1].transport, Transport::EspNow);
    assert!(frames.iter().all(|f| f.message.as_text() == Some("hello from mqtt")));
}

#[test]
fn raw_frames_have_a_limit() {
    assert!(RawFrame::new(Transport::Lora, &[0; 256]).is_none());
    let frame = RawFrame::new(Transport::EspNow, &[7; 255]).unwrap();
    assert_eq!(frame.clone().bytes.as_slice(), &[7; 255][..]);
    assert_eq!(frame.source, Transport::EspNow);
}

#[test]
fn display_lines_are_short() {
    let long = "a".repeat(60);
    let m = Message::text(1, Transport::Mqtt, [1; 6], &long).unwrap();
    let line = DisplayLine::from_message(&m);
    assert_eq!(line.text.as_str(), &long[..47]);
    // Forty-eight bytes hold twenty-four characters of two bytes.
    let wide = "\u{fc}".repeat(60);
    let m = Message::text(1, Transport::Mqtt, [1; 6], &wide).unwrap();
    let line = DisplayLine::from_message(&m);
    assert_eq!(line.clone().text.as_str(), "\u{fc}".repeat(24));
    // A character that does not fit is left out; a shorter one may follow.
    let mixed = format!("{}\u{2713}z", "a".repeat(46));
    let m = Message::text(1, Transport::Mqtt, [1; 6], &mixed).unwrap();
    assert_eq!(DisplayLine::from_message(&m).text.as_str(), "a".repeat(46));
    let m = Message::new(1, Transport::Lora, [1; 6], MsgKind::Telemetry, &[0xFF]).unwrap();
    assert_eq!(DisplayLine::from_message(&m).text.as_str(), "<binary>");
}

// --- Display ----------------------------------------------------------------

fn line(origin: Transport, text: &str) -> DisplayLine {
    let m = Message::text(1, origin, [1; 6], text).unwrap();
    DisplayLine::from_message(&m)
}

#[test]
fn screen_layout() {
    let mut ui = Ui::new();
    assert_eq!(ui.status(), "booting...");
    ui.set_status("ready");
    ui.push_log(line(Transport::Lora, "one"));
    ui.push_log(line(Transport::EspNow, "two"));
    ui.on_key(KeyEvent { key: 10, pressed: true });
    let runs = ui.render();
    let seen: Vec<(&str, i32, i32, Color)> = runs
        .as_slice()
        .iter()
        .map(|r| (r.text.as_str(), r.x, r.y, r.color))
        .collect();
    assert_eq!(
        seen,
        [
            ("RelayStar", 2, 0, Color::White),
            ("ready", 80, 0, Color::Gray),
            ("[lora] one", 2, 14, Color::Orange),
            ("[espnow] two", 2, 26, Color::LightGreen),
            ("> a", 2, 124, Color::Yellow),
        ]
    );
}

#[test]
fn log_scrolls() {
    let mut ui = Ui::default();
    for n in 0..10 {
        ui.push_log(line(Transport::Mqtt, &format!("line {}", n)));
    }
    let runs = ui.render();
    assert_eq!(runs.len(), 11);
    assert_eq!(runs.as_slice()[2].text.as_str(), "[mqtt] line 2");
    assert_eq!(runs.as_slice()[9].text.as_str(), "[mqtt] line 9");
    assert_eq!(runs.as_slice()[9].y, 98);
    assert_eq!(runs.as_slice()[9].color, Color::Cyan);
}

#[test]
fn long_log_lines_are_cut() {
    let mut ui = Ui::new();
    // Forty-seven characters in forty-eight bytes, behind nine for the origin.
    let text = format!("{}\u{fc}", "a".repeat(46));
    ui.push_log(line(Transport::EspNow, &text));
    let runs = ui.render();
    assert_eq!(
        runs.as_slice()[2].text.as_str(),
        format!("[espnow] {}", "a".repeat(46))
    );
}

#[test]
fn status_is_short() {
    let mut ui = Ui::new();
    ui.set_status(&"s".repeat(40));
    assert_eq!(ui.status(), "s".repeat(31));
}

#[test]
fn typing() {
    let mut ui = Ui::new();
    let press = |ui: &mut Ui, key: u8| ui.on_key(KeyEvent { key, pressed: true });
    // Nothing typed: Enter sends nothing.
    let effect = press(&mut ui, 1);
    assert!(effect.dirty && effect.send.is_none());
    assert!(press(&mut ui, 17).dirty); // h
    assert!(press(&mut ui, 18).dirty); // i
    assert!(press(&mut ui, 3).dirty); // space
    assert!(press(&mut ui, 42).dirty); // 2
    assert_eq!(ui.input(), "hi 2");
    // Releases and unknown keys do nothing.
    assert!(!ui.on_key(KeyEvent { key: 17, pressed: false }).dirty);
    assert!(!press(&mut ui, 80).dirty);
    assert!(press(&mut ui, 2).dirty); // backspace
    assert_eq!(ui.input(), "hi ");
    let effect = press(&mut ui, 1);
    assert_eq!(effect.send.unwrap().as_str(), "hi ");
    assert_eq!(ui.input(), "");
    assert!(press(&mut ui, 2).dirty);
    // The line holds sixty-four characters.
    for _ in 0..70 {
        press(&mut ui, 10);
    }
    assert_eq!(ui.input(), "a".repeat(64));
    let runs = ui.render();
    assert_eq!(runs.as_slice()[2].text.as_str(), format!("> {}", "a".repeat(64)));
}

// --- Keyboard ---------------------------------------------------------------

#[test]
fn keyboard_polling() {
    let mut k = Keyboard::new(5u8);
    *k.bus() += 1;
    assert_eq!(*k.bus(), 6);
    assert_eq!(
        k.init_writes(),
        [[0x1D, 0xFF], [0x1E, 0xFF], [0x1F, 0x03], [0x01, 0x01], [0x02, 0x0F]]
    );
    assert_eq!(k.poll(), PollStep::Read(0x03));
    assert_eq!(k.on_count(0xF0), PollStep::Done(None));
    assert_eq!(k.on_count(0x01), PollStep::Read(0x04));
    assert_eq!(k.on_event(0), PollStep::Done(None));
    assert_eq!(
        k.on_event(0x8B),
        PollStep::Done(Some(KeyEvent { key: 11, pressed: true }))
    );
    assert_eq!(
        k.on_event(0x0B),
        PollStep::Done(Some(KeyEvent { key: 11, pressed: false }))
    );
    // Only the codes 1 to 80 are keys.
    assert_eq!(k.on_event(0x80), PollStep::Done(None));
    assert_eq!(
        k.on_event(0xD0),
        PollStep::Done(Some(KeyEvent { key: 80, pressed: true }))
    );
    assert_eq!(k.on_event(0xD1), PollStep::Done(None));
    assert_eq!(k.on_event(0x7F), PollStep::Done(None));
}

#[test]
fn key_codes() {
    assert_eq!(decode_key(1), Some(KeyAction::Enter));
    assert_eq!(decode_key(2), Some(KeyAction::Backspace));
    assert_eq!(decode_key(3), Some(KeyAction::Char(' ')));
    let letters: String = (10..=35)
        .map(|k| match decode_key(k) {
            Some(KeyAction::Char(c)) => c,
            _ => panic!("expected a letter"),
        })
        .collect();
    assert_eq!(letters, "abcdefghijklmnopqrstuvwxyz");
    let digits: String = (40..=49)
        .map(|k| match decode_key(k) {
            Some(KeyAction::Char(c)) => c,
            _ => panic!("expected a digit"),
        })
        .collect();
    assert_eq!(digits, "0123456789");
    for k in [0, 4, 9, 36, 39, 50, 255] {
        assert_eq!(decode_key(k), None);
    }
}

// --- Radios -----------------------------------------------------------------

#[test]
fn espnow_registers_peers_on_demand() {
    let mut port = EspNowPort::new(1u8);
    assert_eq!(port.transport(), Transport::EspNow);
    *port.inner() = 2;
    let to = FrameAddr::Unicast([3; 6]);
    assert_eq!(port.send_frame(to, true), EspNowAction::SendTo([3; 6]));
    assert_eq!(port.send_frame(to, false), EspNowAction::AddPeer([3; 6]));
    assert_eq!(port.after_add_peer(to, true), EspNowAction::SendTo([3; 6]));
    assert_eq!(
        port.after_add_peer(to, false),
        EspNowAction::Done(Err(PortError::UnsupportedAddr))
    );
    assert_eq!(
        port.send_frame(FrameAddr::Broadcast, true),
        EspNowAction::SendTo([0xFF; 6])
    );
    assert_eq!(port.after_send_to(true), EspNowAction::Done(Ok(())));
    assert_eq!(port.after_send_to(false), EspNowAction::Done(Err(PortError::Io)));
    assert_eq!(port.ensure_peer([3; 6], true), EspNowAction::Done(Ok(())));
    assert_eq!(port.ensure_peer([3; 6], false), EspNowAction::AddPeer([3; 6]));
    assert_eq!(port.peer_added(true), Ok(()));
    assert_eq!(port.peer_added(false), Err(PortError::UnsupportedAddr));
    assert_eq!(port.into_inner(), 2);
    assert_eq!(peer_to_register([3; 6], false), Some([3; 6]));
    assert_eq!(peer_to_register([3; 6], true), None);
    assert_eq!(peer_to_register([0xFF; 6], false), None);
}

#[test]
fn lora_port_and_parameters() {
    let mut port = LoraPort::new(1u8);
    assert_eq!(port.transport(), Transport::Lora);
    *port.inner() = 2;
    assert_eq!(port.transmitted(true), Ok(()));
    assert_eq!(port.transmitted(false), Err(PortError::Io));
    assert_eq!(port.into_inner(), 2);
    let p = LoraModulationParams::shared();
    assert_eq!(p.frequency_hz, 868_000_000);
    assert_eq!(p.tx_power_dbm, 20);
    assert_eq!(map_spreading_factor(p.spreading_factor), SpreadingFactor::Sf10);
    assert_eq!(map_bandwidth(p.bandwidth_khz), Bandwidth::Khz250);
    assert_eq!(map_coding_rate(p.coding_rate_denom), CodingRate::Cr4Of8);
    assert_eq!(map_spreading_factor(5), SpreadingFactor::Sf5);
    assert_eq!(map_spreading_factor(4), SpreadingFactor::Sf12);
    assert_eq!(map_bandwidth(125), Bandwidth::Khz125);
    assert_eq!(map_bandwidth(1), Bandwidth::Khz500);
    assert_eq!(map_coding_rate(5), CodingRate::Cr4Of5);
    assert_eq!(map_coding_rate(9), CodingRate::Cr4Of8);
    let s = packet_settings(&p, max_frame_len());
    assert_eq!(s.preamble_symbols, 4);
    assert_eq!(s.max_payload, 255);
    assert!(s.crc_on && !s.implicit_header && !s.iq_inverted);
}

#[test]
fn lora_loop_steps() {
    let cases = [
        (LoraEvent::RxPrepared(true), LoraAction::Listen),
        (LoraEvent::RxPrepared(false), LoraAction::Wait(500)),
        (LoraEvent::Waited, LoraAction::PrepareRx),
        (LoraEvent::Received, LoraAction::Deliver),
        (LoraEvent::RxFailed, LoraAction::PrepareRx),
        (LoraEvent::Delivered, LoraAction::PrepareRx),
        (LoraEvent::Outbound(true), LoraAction::PrepareTx),
        (LoraEvent::Outbound(false), LoraAction::PrepareRx),
        (LoraEvent::TxPrepared(true), LoraAction::Transmit),
        (LoraEvent::TxPrepared(false), LoraAction::PrepareRx),
        (LoraEvent::Transmitted(true), LoraAction::Sleep),
        (LoraEvent::Transmitted(false), LoraAction::Sleep),
        (LoraEvent::Slept, LoraAction::PrepareRx),
    ];
    for (event, action) in cases {
        assert_eq!(next_lora_action(event), action);
    }
}

// --- The LoRa node ----------------------------------------------------------

#[test]
fn node_answers_pings() {
    let mut node = LoraNode::new();
    let ping =
        Message::unicast(99, Transport::Lora, [0xAA; 6], NODE_ADDR, MsgKind::Ping, b"ping").unwrap();
    let event = node.on_frame(&encoded(&ping)).unwrap();
    assert_eq!(event, NodeEvent::Received(Some([0xAA; 6])));
    assert_eq!(node.rx_count(), 1);
    assert_eq!(node.last_text(), "ping");
    let frames = node.plan_pong([0xAA; 6]).unwrap();
    assert_eq!(frames.len(), 1);
    let f = &frames.as_slice()[0];
    assert_eq!(f.addr, FrameAddr::Unicast([0xAA; 6]));
    assert_eq!(f.message.kind, MsgKind::Pong);
    assert_eq!(f.message.as_text(), Some("pong"));
    node.sent(1);
    assert_eq!(node.tx_count(), 1);
    assert_eq!(node.counters().as_str(), "TX:1  RX:1");
    // A broadcast ping is answered to its sender too.
    let ping = Message::new(100, Transport::Lora, [0xAB; 6], MsgKind::Ping, b"ping").unwrap();
    assert_eq!(
        node.on_frame(&encoded(&ping)),
        Ok(NodeEvent::Received(Some([0xAB; 6])))
    );
    let frames = node.plan_pong([0xAB; 6]).unwrap();
    assert_eq!(frames.as_slice()[0].addr, FrameAddr::Unicast([0xAB; 6]));
    // A peer that is not known gets a broadcast.
    let frames = node.plan_pong([0xBB; 6]).unwrap();
    assert_eq!(frames.as_slice()[0].addr, FrameAddr::Broadcast);
    // The same ping again is ignored.
    assert_eq!(node.on_frame(&encoded(&ping)), Ok(NodeEvent::Ignored));
}

#[test]
fn node_shows_texts() {
    let mut node = LoraNode::new();
    let m = Message::text(1, Transport::Mqtt, [9; 6], "hello from mqtt").unwrap();
    assert_eq!(node.on_frame(&encoded(&m)), Ok(NodeEvent::Received(None)));
    assert_eq!(node.last_text(), "hello from mqtt");
    // A text that is too long to show is counted all the same.
    let m = Message::text(2, Transport::Mqtt, [9; 6], &"x".repeat(49)).unwrap();
    assert_eq!(node.on_frame(&encoded(&m)), Ok(NodeEvent::Received(None)));
    assert_eq!(node.last_text(), "");
    assert_eq!(node.rx_count(), 2);
    let m = Message::text(3, Transport::Mqtt, [9; 6], &"x".repeat(48)).unwrap();
    assert_eq!(node.on_frame(&encoded(&m)), Ok(NodeEvent::Received(None)));
    assert_eq!(node.last_text(), "x".repeat(48));
    // Mail for others is ignored, garbage is an error.
    let m = Message::unicast(4, Transport::Lora, [9; 6], [8; 6], MsgKind::Text, b"no").unwrap();
    assert_eq!(node.on_frame(&encoded(&m)), Ok(NodeEvent::Ignored));
    assert_eq!(
        node.on_frame(&[]),
        Err(RelayError::Protocol(ProtoError::Decode))
    );
    let mut m = Message::text(5, Transport::Lora, [9; 6], "x").unwrap();
    m.frag = Some(Fragment { group_id: 1, seq: 1, total: 1 });
    assert_eq!(
        node.on_frame(&encoded(&m)),
        Ok(NodeEvent::Dropped(RejectReason::BadHeader))
    );
}

#[test]
fn node_heartbeat() {
    let mut node = LoraNode::new();
    assert_eq!(node.heartbeat().as_str(), "node hb #0");
    let text = node.heartbeat();
    let frames = node
        .plan(MsgKind::Text, text.as_str().as_bytes(), Destination::Broadcast)
        .unwrap();
    assert_eq!(frames.len(), 1);
    assert_eq!(frames.as_slice()[0].message.as_text(), Some("node hb #0"));
    node.sent(4_294_967_295);
    assert_eq!(node.heartbeat().as_str(), "node hb #4294967295");
    node.sent(1);
    assert_eq!(node.heartbeat().as_str(), "node hb #0");
    assert_eq!(
        counters_line(4_294_967_295, 1_234_567_890).as_str(),
        "TX:4294967295  RX:1234567890"
    );
}

#[test]
fn node_screens() {
    let mut node = LoraNode::new();
    assert_eq!(
        node.ready_screen().rows(),
        [("RelayStar node", 0), ("LoRa node ready", 16), ("", 28), ("TX:0  RX:0", 52)]
    );
    let m = Message::text(1, Transport::Mqtt, [9; 6], "hello").unwrap();
    let _ = node.on_frame(&encoded(&m));
    assert_eq!(
        node.received_screen().rows(),
        [("RelayStar node", 0), ("RX <-", 16), ("hello", 28), ("TX:0  RX:1", 52)]
    );
    let text = node.heartbeat();
    node.sent(1);
    assert_eq!(
        node.sent_screen(&text).rows(),
        [("RelayStar node", 0), ("TX ->", 16), ("node hb #0", 28), ("TX:1  RX:1", 52)]
    );
    assert_eq!(StatusScreen::failure(NodeFailure::Init).line1, "LoRa init FAILED");
    assert_eq!(StatusScreen::failure(NodeFailure::Params).line1, "LoRa params FAILED");
    assert_eq!(
        StatusScreen::failure(NodeFailure::Init).counters.as_str(),
        "TX:0  RX:0"
    );
}

#[test]
fn espnow_traffic() {
    let m = Message::text(1, Transport::EspNow, [9; 6], "hi").unwrap();
    let out = on_outbound(FrameAddr::Unicast([3; 6]), false, &m);
    assert_eq!(out.register, Some([3; 6]));
    assert_eq!(out.mac, [3; 6]);
    assert_eq!(out.frame.as_slice(), &encoded(&m)[..]);
    let out = on_outbound(FrameAddr::Broadcast, false, &m);
    assert_eq!(out.register, None);
    assert_eq!(out.mac, [0xFF; 6]);
    let got = on_received([3; 6], false, &encoded(&m));
    assert_eq!(got.register, Some([3; 6]));
    let raw = got.frame.unwrap();
    assert_eq!(raw.source, Transport::EspNow);
    assert_eq!(raw.bytes.as_slice(), &encoded(&m)[..]);
    let got = on_received([3; 6], true, &[0; 256]);
    assert_eq!(got.register, None);
    assert!(got.frame.is_none());
}

#[test]
fn transmissions_count_what_went_out() {
    let mut node = LoraNode::new();
    let payload = [7u8; 200];
    let frames = node
        .plan(MsgKind::Telemetry, &payload, Destination::Broadcast)
        .unwrap();
    let expected: Vec<Vec<u8>> = frames.as_slice().iter().map(|f| encoded(&f.message)).collect();
    assert_eq!(expected.len(), 2);
    let mut t = Transmission::new(frames);
    let (addr, frame) = t.next_frame().unwrap();
    assert_eq!(addr, FrameAddr::Broadcast);
    assert_eq!(frame.as_slice(), &expected[0][..]);
    t.on_result(false);
    let (_, frame) = t.next_frame().unwrap();
    assert_eq!(frame.as_slice(), &expected[1][..]);
    t.on_result(true);
    assert!(t.next_frame().is_none());
    assert_eq!(t.sent(), 1);
}
