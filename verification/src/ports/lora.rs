//! LoRa transport adapter.
//!
//! LoRa is a shared medium: every node in range hears every frame. Unicast
//! and broadcast are labels inside the frame; the radio sends the same bits
//! for both.

use crate::error::PortError;
use crate::proto::{Transport, MAX_FRAME};
use crate::radio::{
    LORA_BANDWIDTH_KHZ, LORA_CODING_RATE_DENOM, LORA_FREQUENCY_HZ, LORA_PREAMBLE_LEN,
    LORA_SPREADING_FACTOR, LORA_TX_POWER_DBM,
};
use vstd::prelude::*;

verus! {

/// Transport port over a LoRa driver. A thin wrapper: fragmentation,
/// deduplication and limits all live in the relay engine. Its view is the
/// driver.
pub struct LoraPort<R> {
    radio: R,
}

impl<R> View for LoraPort<R> {
    type V = R;

    closed spec fn view(&self) -> R {
        self.radio
    }
}

impl<R> LoraPort<R> {
    /// Wrap a radio driver.
    pub fn new(radio: R) -> (p: Self)
        ensures
            p@ == radio,
    {
        LoraPort { radio }
    }

    /// Access the inner radio (for example to feed it into a separate receive
    /// task).
    pub fn inner(&mut self) -> (r: &mut R)
        ensures
            *r == old(self)@,
            final(self)@ == *final(r),
    {
        &mut self.radio
    }

    /// Consume the port and return the inner radio driver.
    pub fn into_inner(self) -> (r: R)
        ensures
            r == self@,
    {
        self.radio
    }

    /// The transport of this port.
    pub fn transport(&self) -> (t: Transport)
        ensures
            t == Transport::Lora,
    {
        Transport::Lora
    }

    /// What the driver's answer to a transmission means. The addressing of the
    /// frame plays no part: it is already inside the frame.
    pub fn transmitted(&self, ok: bool) -> (r: Result<(), PortError>)
        ensures
            ok ==> r == Ok::<(), PortError>(()),
            !ok ==> r == Err::<(), PortError>(PortError::Io),
    {
        if ok {
            Ok(())
        } else {
            Err(PortError::Io)
        }
    }
}

/// LoRa modulation parameters in plain units.
#[derive(Debug, Clone, Copy)]
pub struct LoraModulationParams {
    /// Centre frequency in Hz.
    pub frequency_hz: u32,
    /// Spreading factor, 5 to 12.
    pub spreading_factor: u8,
    /// Bandwidth in kHz; supported values are 125, 250, 500.
    pub bandwidth_khz: u16,
    /// Coding rate denominator (5 to 8 for 4/5 to 4/8).
    pub coding_rate_denom: u8,
    /// Preamble length in symbols.
    pub preamble_symbols: u16,
    /// Output power in dBm.
    pub tx_power_dbm: i32,
}

impl LoraModulationParams {
    /// The parameters that the whole mesh shares.
    pub fn shared() -> (p: Self)
        ensures
            p.frequency_hz == LORA_FREQUENCY_HZ,
            p.spreading_factor == LORA_SPREADING_FACTOR,
            p.bandwidth_khz == LORA_BANDWIDTH_KHZ,
            p.coding_rate_denom == LORA_CODING_RATE_DENOM,
            p.preamble_symbols == LORA_PREAMBLE_LEN,
            p.tx_power_dbm == LORA_TX_POWER_DBM,
    {
        LoraModulationParams {
            frequency_hz: LORA_FREQUENCY_HZ,
            spreading_factor: LORA_SPREADING_FACTOR,
            bandwidth_khz: LORA_BANDWIDTH_KHZ,
            coding_rate_denom: LORA_CODING_RATE_DENOM,
            preamble_symbols: LORA_PREAMBLE_LEN,
            tx_power_dbm: LORA_TX_POWER_DBM,
        }
    }
}

/// A completed receive on a LoRa radio.
#[derive(Debug, Clone, Copy)]
pub struct SxRxOutcome {
    /// Number of bytes written to the caller's buffer.
    pub len: u8,
    /// Signal strength reported by the radio (dBm, negative).
    pub rssi: i16,
    /// Signal-to-noise ratio reported by the radio (dB).
    pub snr: i16,
}

/// Spreading factors of the radio.
#[derive(Debug, Clone, Copy, PartialEq, Eq, Structural)]
pub enum SpreadingFactor {
    Sf5,
    Sf6,
    Sf7,
    Sf8,
    Sf9,
    Sf10,
    Sf11,
    Sf12,
}

impl SpreadingFactor {
    /// The spreading factor as a number.
    pub open spec fn number(self) -> int {
        match self {
            SpreadingFactor::Sf5 => 5,
            SpreadingFactor::Sf6 => 6,
            SpreadingFactor::Sf7 => 7,
            SpreadingFactor::Sf8 => 8,
            SpreadingFactor::Sf9 => 9,
            SpreadingFactor::Sf10 => 10,
            SpreadingFactor::Sf11 => 11,
            SpreadingFactor::Sf12 => 12,
        }
    }
}

/// Bandwidths of the radio.
#[derive(Debug, Clone, Copy, PartialEq, Eq, Structural)]
pub enum Bandwidth {
    Khz125,
    Khz250,
    Khz500,
}

impl Bandwidth {
    /// The bandwidth in kHz.
    pub open spec fn khz(self) -> int {
        match self {
            Bandwidth::Khz125 => 125,
            Bandwidth::Khz250 => 250,
            Bandwidth::Khz500 => 500,
        }
    }
}

/// Coding rates of the radio.
#[derive(Debug, Clone, Copy, PartialEq, Eq, Structural)]
pub enum CodingRate {
    Cr4Of5,
    Cr4Of6,
    Cr4Of7,
    Cr4Of8,
}

impl CodingRate {
    /// The denominator of the rate.
    pub open spec fn denominator(self) -> int {
        match self {
            CodingRate::Cr4Of5 => 5,
            CodingRate::Cr4Of6 => 6,
            CodingRate::Cr4Of7 => 7,
            CodingRate::Cr4Of8 => 8,
        }
    }
}

/// The spreading factor with this number; the largest one for any number that
/// is none.
pub fn map_spreading_factor(sf: u8) -> (r: SpreadingFactor)
    ensures
        r.number() == if 5 <= sf <= 12 {
            sf as int
        } else {
            12
        },
{
    match sf {
        5 => SpreadingFactor::Sf5,
        6 => SpreadingFactor::Sf6,
        7 => SpreadingFactor::Sf7,
        8 => SpreadingFactor::Sf8,
        9 => SpreadingFactor::Sf9,
        10 => SpreadingFactor::Sf10,
        11 => SpreadingFactor::Sf11,
        _ => SpreadingFactor::Sf12,
    }
}

/// The bandwidth of so many kHz; the largest one for any other number.
pub fn map_bandwidth(khz: u16) -> (r: Bandwidth)
    ensures
        r.khz() == if khz == 125 || khz == 250 {
            khz as int
        } else {
            500
        },
{
    match khz {
        125 => Bandwidth::Khz125,
        250 => Bandwidth::Khz250,
        _ => Bandwidth::Khz500,
    }
}

/// The coding rate with this denominator; the most robust one for any number
/// that is none.
pub fn map_coding_rate(denom: u8) -> (r: CodingRate)
    ensures
        r.denominator() == if 5 <= denom <= 8 {
            denom as int
        } else {
            8
        },
{
    match denom {
        5 => CodingRate::Cr4Of5,
        6 => CodingRate::Cr4Of6,
        7 => CodingRate::Cr4Of7,
        _ => CodingRate::Cr4Of8,
    }
}

/// How packets are framed on the air.
#[derive(Debug, Clone, Copy, PartialEq, Eq, Structural)]
pub struct PacketSettings {
    /// Preamble length in symbols.
    pub preamble_symbols: u16,
    /// Whether the header is left out.
    pub implicit_header: bool,
    /// The longest payload to receive.
    pub max_payload: u8,
    /// Whether packets carry a checksum.
    pub crc_on: bool,
    /// Whether the signal is inverted.
    pub iq_inverted: bool,
}

/// The framing for a port: explicit headers, checksums, no inversion.
pub fn packet_settings(params: &LoraModulationParams, max_frame: u8) -> (s: PacketSettings)
    ensures
        s == (PacketSettings {
            preamble_symbols: params.preamble_symbols,
            implicit_header: false,
            max_payload: max_frame,
            crc_on: true,
            iq_inverted: false,
        }),
{
    PacketSettings {
        preamble_symbols: params.preamble_symbols,
        implicit_header: false,
        max_payload: max_frame,
        crc_on: true,
        iq_inverted: false,
    }
}

/// The largest frame as a radio counts it.
pub fn max_frame_len() -> (n: u8)
    ensures
        n == MAX_FRAME,
{
    MAX_FRAME as u8
}

/// What happened on the radio.
#[derive(Debug, Clone, Copy, PartialEq, Eq, Structural)]
pub enum LoraEvent {
    /// The radio was made ready to receive, or not.
    RxPrepared(bool),
    /// The wait after a failure is over.
    Waited,
    /// A frame arrived.
    Received,
    /// Receiving failed.
    RxFailed,
    /// The frame that arrived was handed on.
    Delivered,
    /// A frame is to be sent; it was encoded, or could not be.
    Outbound(bool),
    /// The radio was made ready to send, or not.
    TxPrepared(bool),
    /// The frame went out, or not.
    Transmitted(bool),
    /// The radio was put to sleep.
    Slept,
}

/// What to do with the radio next.
#[derive(Debug, Clone, Copy, PartialEq, Eq, Structural)]
pub enum LoraAction {
    /// Make it ready to receive.
    PrepareRx,
    /// Wait for so many milliseconds.
    Wait(u64),
    /// Wait for a frame to arrive or to be sent, whichever comes first.
    Listen,
    /// Hand the frame that arrived on.
    Deliver,
    /// Make it ready to send.
    PrepareTx,
    /// Send the frame.
    Transmit,
    /// Put it to sleep.
    Sleep,
}

/// The wait after the radio could not be made ready to receive.
pub const RX_RETRY_MS: u64 = 500;

/// What to do with the radio after something happened.
pub open spec fn lora_step(event: LoraEvent) -> LoraAction {
    match event {
        LoraEvent::RxPrepared(true) => LoraAction::Listen,
        LoraEvent::RxPrepared(false) => LoraAction::Wait(RX_RETRY_MS),
        LoraEvent::Received => LoraAction::Deliver,
        LoraEvent::Outbound(true) => LoraAction::PrepareTx,
        LoraEvent::TxPrepared(true) => LoraAction::Transmit,
        LoraEvent::Transmitted(_) => LoraAction::Sleep,
        _ => LoraAction::PrepareRx,
    }
}

/// What to do with the radio after something happened. It listens whenever it
/// can; it goes back to listening after every frame and every failure.
pub fn next_lora_action(event: LoraEvent) -> (a: LoraAction)
    ensures
        a == lora_step(event),
        a == match event {
            LoraEvent::RxPrepared(true) => LoraAction::Listen,
            LoraEvent::RxPrepared(false) => LoraAction::Wait(RX_RETRY_MS),
            LoraEvent::Received => LoraAction::Deliver,
            LoraEvent::Outbound(true) => LoraAction::PrepareTx,
            LoraEvent::TxPrepared(true) => LoraAction::Transmit,
            LoraEvent::Transmitted(_) => LoraAction::Sleep,
            _ => LoraAction::PrepareRx,
        },
{
    match event {
        LoraEvent::RxPrepared(ready) => if ready {
            LoraAction::Listen
        } else {
            LoraAction::Wait(RX_RETRY_MS)
        },
        LoraEvent::Received => LoraAction::Deliver,
        LoraEvent::Outbound(encoded) => if encoded {
            LoraAction::PrepareTx
        } else {
            LoraAction::PrepareRx
        },
        LoraEvent::TxPrepared(ready) => if ready {
            LoraAction::Transmit
        } else {
            LoraAction::PrepareRx
        },
        LoraEvent::Transmitted(_) => LoraAction::Sleep,
        LoraEvent::Waited | LoraEvent::RxFailed | LoraEvent::Delivered | LoraEvent::Slept =>
            LoraAction::PrepareRx,
    }
}

// ---------------------------------------------------------------------------
// Laws
// ---------------------------------------------------------------------------

/// Every number that a spreading factor, a bandwidth or a coding rate has is
/// the number of exactly one of them.
pub proof fn law_settings_have_their_numbers(
    sf: SpreadingFactor,
    bandwidth: Bandwidth,
    rate: CodingRate,
)
    ensures
        sf.number() == 5 <==> sf == SpreadingFactor::Sf5,
        sf.number() == 6 <==> sf == SpreadingFactor::Sf6,
        sf.number() == 7 <==> sf == SpreadingFactor::Sf7,
        sf.number() == 8 <==> sf == SpreadingFactor::Sf8,
        sf.number() == 9 <==> sf == SpreadingFactor::Sf9,
        sf.number() == 10 <==> sf == SpreadingFactor::Sf10,
        sf.number() == 11 <==> sf == SpreadingFactor::Sf11,
        sf.number() == 12 <==> sf == SpreadingFactor::Sf12,
        bandwidth.khz() == 125 <==> bandwidth == Bandwidth::Khz125,
        bandwidth.khz() == 250 <==> bandwidth == Bandwidth::Khz250,
        bandwidth.khz() == 500 <==> bandwidth == Bandwidth::Khz500,
        rate.denominator() == 5 <==> rate == CodingRate::Cr4Of5,
        rate.denominator() == 6 <==> rate == CodingRate::Cr4Of6,
        rate.denominator() == 7 <==> rate == CodingRate::Cr4Of7,
        rate.denominator() == 8 <==> rate == CodingRate::Cr4Of8,
{
}

/// Whether an event is one that an action leads to.
pub open spec fn follows(action: LoraAction, event: LoraEvent) -> bool {
    match action {
        LoraAction::PrepareRx => event is RxPrepared,
        LoraAction::Wait(_) => event is Waited,
        LoraAction::Listen => event is Received || event is RxFailed || event is Outbound,
        LoraAction::Deliver => event is Delivered,
        LoraAction::PrepareTx => event is TxPrepared,
        LoraAction::Transmit => event is Transmitted,
        LoraAction::Sleep => event is Slept,
    }
}

/// How many steps at most it takes to make the radio ready to receive again.
pub open spec fn steps_to_receiving(action: LoraAction) -> nat {
    match action {
        LoraAction::PrepareRx => 0,
        LoraAction::Wait(_) => 1,
        LoraAction::Sleep => 1,
        LoraAction::Deliver => 1,
        LoraAction::Transmit => 2,
        LoraAction::PrepareTx => 3,
        LoraAction::Listen => 4,
    }
}

/// Whatever happens, the radio is made ready to receive again after a few
/// steps. It listens exactly if it could be made ready, a frame is delivered
/// exactly if one was received, and one is transmitted exactly if it was
/// encoded and the radio is ready for it.
pub proof fn law_radio_returns_to_receiving(action: LoraAction, event: LoraEvent)
    requires
        follows(action, event),
    ensures
        action != LoraAction::PrepareRx ==> steps_to_receiving(lora_step(event))
            < steps_to_receiving(action),
        lora_step(event) == LoraAction::Listen <==> event == LoraEvent::RxPrepared(true),
        lora_step(event) == LoraAction::Deliver <==> event == LoraEvent::Received,
        lora_step(event) == LoraAction::PrepareTx <==> event == LoraEvent::Outbound(true),
        lora_step(event) == LoraAction::Transmit <==> event == LoraEvent::TxPrepared(true),
        lora_step(event) == LoraAction::Sleep <==> event is Transmitted,
        lora_step(event) matches LoraAction::Wait(ms) ==> event == LoraEvent::RxPrepared(false)
            && ms == RX_RETRY_MS,
        event == LoraEvent::RxPrepared(false) ==> lora_step(event) is Wait,
{
}

} // verus!
