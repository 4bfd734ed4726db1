//! Radio parameters shared by every LoRa node so they can hear each other.
//!
//! The concrete radio settings of each firmware are derived from these; keep
//! them in sync across the mesh. Defaults target the EU868 band.

use vstd::prelude::*;

verus! {

/// LoRa centre frequency in Hz (EU868). Change for your region, for example
/// to 915_000_000 for US915.
pub const LORA_FREQUENCY_HZ: u32 = 868_000_000;

/// Spreading factor.
pub const LORA_SPREADING_FACTOR: u8 = 10;

/// Bandwidth in kHz.
pub const LORA_BANDWIDTH_KHZ: u16 = 250;

/// Coding rate denominator: a rate of 4/8.
pub const LORA_CODING_RATE_DENOM: u8 = 8;

/// Preamble length in symbols.
pub const LORA_PREAMBLE_LEN: u16 = 4;

/// Output power in dBm.
pub const LORA_TX_POWER_DBM: i32 = 20;

} // verus!
