//! RelayStar: a multi-transport messaging mesh over LoRa, MQTT and ESP-NOW.
//!
//! - [`proto`] is the message that travels across every transport and its
//!   framing ([`wire`] is the byte format); [`seen`] remembers which messages
//!   were seen.
//! - [`relay`] is the engine: it plans what to send where, and makes sense of
//!   what arrives. [`fragment`] cuts messages into slices and puts them
//!   together again; [`receivers`] keeps track of who is reachable how.
//! - [`ports`] holds what each transport adds to a frame, among them a small
//!   MQTT 3.1.1 client.
//! - [`bridge`], [`display`], [`keyboard`] and [`mqtt_link`] are the logic of
//!   the Cardputer terminal; [`node`] is the logic of the LoRa node.
//!
//! Nothing here performs I/O. What the parts promise together is stated in
//! proof functions whose names start with `law_`; those of the engine are in
//! [`fragment_laws`] and [`relay_laws`], those of routing in [`bridge_laws`].

pub mod bounded;
pub mod bridge;
pub mod bridge_laws;
pub mod display;
pub mod error;
pub mod fragment;
pub mod fragment_laws;
pub mod keyboard;
pub mod mqtt_link;
pub mod node;
pub mod port;
pub mod ports;
pub mod proto;
pub mod radio;
pub mod receivers;
pub mod relay;
pub mod relay_laws;
pub mod search;
pub mod seen;
pub mod text;
pub mod wire;
