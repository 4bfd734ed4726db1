//! Transport-port adapters.
//!
//! Each submodule holds what one transport adds to a frame: the address of an
//! ESP-NOW peer, the topic of an MQTT publication, the parameters of a LoRa
//! radio. The drivers themselves stay outside: an adapter says what to ask of
//! the driver next, and what its answer means.

pub mod espnow;
pub mod lora;
pub mod mqtt;
