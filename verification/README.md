# RelayStar

A multi-transport messaging mesh spanning **LoRa**, **MQTT** and **ESP-NOW**.

- `src/` is the library, verified with [Verus](https://github.com/verus-lang/verus):
  the wire protocol, the relay engine (fragmentation, reassembly,
  deduplication, receiver tracking, fan-out), the transport adapters, and the
  logic of the two firmwares.
- `app/` is the ordinary Rust around it: the MQTT broker (`main`) and the
  tasks of the firmwares, generic over the drivers of the board.
- `tests/` runs the library.

## How the pieces fit

Every transport carries the same `Message`. A frame that arrives goes through
`Relay::ingest`, which decodes it, learns its sender, drops it if it was seen
before, and puts slices together. What comes out is for this node, for every
node, or for someone else; the bridge of the terminal shows it and forwards it
to the other transports as long as its hop budget lasts.

| Transport | Payload per frame |
| --------- | ----------------- |
| LoRa      | 180 bytes         |
| ESP-NOW   | 200 bytes         |
| MQTT      | 4096 bytes        |

A message carries at most 200 bytes of payload; larger than a transport's
limit, it is cut into at most 32 slices for that transport. A message says on
which transport it entered the mesh, wherever it arrives.

## Dependencies

`src/` calls `heapless` and `postcard` (whose tuples bring in `serde`). The
other crates are those of `app/`. Among them, `critical-section` is there only
for its host implementation, which the mutexes and timers of `embassy` need to
link on a host.

## What is trusted

The collections of `heapless` and the two calls into `postcard` are described
by contracts in `src/bounded.rs` and `src/wire.rs` that are believed, not
proved; so is `core::str::from_utf8` in `src/text.rs`. Everything else in
`src/` is proved.
