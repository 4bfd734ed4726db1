//! Minimal TCA8418 keypad-scanner driver for the Cardputer-Adv keyboard.
//!
//! The keyboard matrix is read through an I2C keypad controller. The driver
//! says which registers to write and read, and makes sense of what was read;
//! the bus itself is driven by its owner.
//!
//! The mapping from key codes to characters in [`decode_key`] depends on the
//! physical wiring of the keyboard and needs calibration for your unit.

use vstd::prelude::*;

verus! {

/// TCA8418 7-bit I2C address.
pub const TCA8418_ADDR: u8 = 0x34;

/// Configuration register.
pub const REG_CFG: u8 = 0x01;

/// Interrupt status register.
pub const REG_INT_STAT: u8 = 0x02;

/// Key lock and event counter register.
pub const REG_KEY_LCK_EC: u8 = 0x03;

/// Key event register: the front of the event queue.
pub const REG_KEY_EVENT_A: u8 = 0x04;

/// Register that routes rows into the matrix.
pub const REG_KP_GPIO1: u8 = 0x1D;

/// Register that routes the first columns into the matrix.
pub const REG_KP_GPIO2: u8 = 0x1E;

/// Register that routes the last columns into the matrix.
pub const REG_KP_GPIO3: u8 = 0x1F;

/// The largest key code of the matrix: eight rows of ten columns.
pub const MAX_KEY: u8 = 80;

/// A decoded keyboard action.
#[derive(Debug, Clone, Copy, PartialEq, Eq, Structural)]
pub enum KeyAction {
    Char(char),
    Backspace,
    Enter,
}

/// A raw key event from the queue.
#[derive(Debug, Clone, Copy, PartialEq, Eq, Structural)]
pub struct KeyEvent {
    /// Matrix key code (1 to 80).
    pub key: u8,
    /// `true` for pressed, `false` for released.
    pub pressed: bool,
}

/// What to do next to poll for a key event.
#[derive(Debug, Clone, Copy, PartialEq, Eq, Structural)]
pub enum PollStep {
    /// Read this register.
    Read(u8),
    /// Nothing more; this is the event, if there was one.
    Done(Option<KeyEvent>),
}

/// The event that a value of the event register stands for: the key code in
/// the low seven bits, pressed or released in the high bit. A code that no key
/// of the matrix has is no event; zero is what an empty queue reads as.
pub open spec fn event_of(value: u8) -> Option<KeyEvent> {
    if 1 <= value % 128 <= MAX_KEY {
        Some(KeyEvent { key: (value % 128) as u8, pressed: value >= 128 })
    } else {
        None
    }
}

/// What to do after the event counter was read.
pub open spec fn step_after_count(value: u8) -> PollStep {
    if value % 16 == 0 {
        PollStep::Done(None)
    } else {
        PollStep::Read(REG_KEY_EVENT_A)
    }
}

/// A keyboard on an I2C bus. Its view is the bus.
pub struct Keyboard<I> {
    i2c: I,
}

impl<I> View for Keyboard<I> {
    type V = I;

    closed spec fn view(&self) -> I {
        self.i2c
    }
}

impl<I> Keyboard<I> {
    /// The keyboard on a bus. Write [`Keyboard::init_writes`] to it first.
    pub fn new(i2c: I) -> (k: Self)
        ensures
            k@ == i2c,
    {
        Keyboard { i2c }
    }

    /// Access the bus.
    pub fn bus(&mut self) -> (b: &mut I)
        ensures
            *b == old(self)@,
            final(self)@ == *final(b),
    {
        &mut self.i2c
    }

    /// The register writes that set the controller up for scanning the full
    /// matrix: all rows and columns belong to it, key events are recorded, and
    /// no interrupt is pending.
    pub fn init_writes(&self) -> (w: [[u8; 2]; 5])
        ensures
            w@.len() == 5,
            w@[0]@ == seq![REG_KP_GPIO1, 0xFFu8],
            w@[1]@ == seq![REG_KP_GPIO2, 0xFFu8],
            w@[2]@ == seq![REG_KP_GPIO3, 0x03u8],
            w@[3]@ == seq![REG_CFG, 0x01u8],
            w@[4]@ == seq![REG_INT_STAT, 0x0Fu8],
    {
        [
            [REG_KP_GPIO1, 0xFF],
            [REG_KP_GPIO2, 0xFF],
            [REG_KP_GPIO3, 0x03],
            [REG_CFG, 0x01],
            [REG_INT_STAT, 0x0F],
        ]
    }

    /// The first thing to do to poll for a single pending key event.
    pub fn poll(&self) -> (s: PollStep)
        ensures
            s == PollStep::Read(REG_KEY_LCK_EC),
    {
        PollStep::Read(REG_KEY_LCK_EC)
    }

    /// What to do after the event counter was read: its low four bits say
    /// whether events are pending.
    pub fn on_count(&self, value: u8) -> (s: PollStep)
        ensures
            s == step_after_count(value),
            s == if value % 16 == 0 {
                PollStep::Done(None)
            } else {
                PollStep::Read(REG_KEY_EVENT_A)
            },
    {
        assert(value & 0x0F == value % 16) by (bit_vector);
        if value & 0x0F == 0 {
            return PollStep::Done(None);
        }
        PollStep::Read(REG_KEY_EVENT_A)
    }

    /// What came of it after the event register was read.
    pub fn on_event(&self, value: u8) -> (s: PollStep)
        ensures
            s == PollStep::Done(event_of(value)),
            s matches PollStep::Done(Some(e)) ==> 1 <= e.key <= MAX_KEY,
    {
        assert(value & 0x7F == value % 128) by (bit_vector);
        assert((value & 0x80 != 0) == (value >= 128)) by (bit_vector);
        let key = value & 0x7F;
        if key == 0 || key > MAX_KEY {
            return PollStep::Done(None);
        }
        PollStep::Done(Some(KeyEvent { key, pressed: (value & 0x80) != 0 }))
    }
}

/// The action that a key code stands for.
pub open spec fn action_of(key: u8) -> Option<KeyAction> {
    if key == 1 {
        Some(KeyAction::Enter)
    } else if key == 2 {
        Some(KeyAction::Backspace)
    } else if key == 3 {
        Some(KeyAction::Char(' '))
    } else if 10 <= key <= 35 {
        Some(KeyAction::Char("abcdefghijklmnopqrstuvwxyz"@[key - 10]))
    } else if 40 <= key <= 49 {
        Some(KeyAction::Char("0123456789"@[key - 40]))
    } else {
        None
    }
}

/// Best-effort mapping of a matrix key code to an action: a few control keys,
/// a run of letters, and a run of digits.
pub fn decode_key(key: u8) -> (r: Option<KeyAction>)
    ensures
        r == action_of(key),
{
    proof {
        reveal_strlit("abcdefghijklmnopqrstuvwxyz");
        reveal_strlit("0123456789");
    }
    match key {
        1 => Some(KeyAction::Enter),
        2 => Some(KeyAction::Backspace),
        3 => Some(KeyAction::Char(' ')),
        10..=35 => Some(KeyAction::Char((0x61 + (key - 10)) as char)),
        40..=49 => Some(KeyAction::Char((0x30 + (key - 40)) as char)),
        _ => None,
    }
}

// ---------------------------------------------------------------------------
// Laws
// ---------------------------------------------------------------------------

/// Every key of the matrix can be pressed and released, and the event register
/// tells which key it was and which of the two; nothing else is an event.
pub proof fn law_events(e: KeyEvent, value: u8)
    requires
        1 <= e.key <= 80,
    ensures
        event_of((e.key + if e.pressed {
            128int
        } else {
            0
        }) as u8) == Some(e),
        event_of(value) matches Some(read) ==> {
            &&& 1 <= read.key <= 80
            &&& value == read.key + if read.pressed {
                128int
            } else {
                0
            }
        },
        event_of(value) is None <==> value == 0 || 80 < value <= 128 || value > 208,
{
}

/// Up to fifteen events can be pending, and the event register is read exactly
/// if some are, whatever the lock flags beside the counter say.
pub proof fn law_pending_events(pending: nat, flags: nat)
    requires
        pending < 16,
        flags < 16,
    ensures
        step_after_count((16 * flags + pending) as u8) == PollStep::Read(REG_KEY_EVENT_A)
            <==> pending > 0,
        step_after_count((16 * flags + pending) as u8) == PollStep::Done(None) <==> pending == 0,
{
}

/// The letters stand in alphabetical order from code 10, the digits in order
/// from code 40; three more codes are Enter, Backspace and the space, and no
/// other code means anything.
pub proof fn law_key_codes(key: u8)
    ensures
        10 <= key <= 35 ==> action_of(key) == Some(
            KeyAction::Char(('a' as int + key - 10) as char),
        ),
        40 <= key <= 49 ==> action_of(key) == Some(
            KeyAction::Char(('0' as int + key - 40) as char),
        ),
        action_of(key) == Some(KeyAction::Enter) <==> key == 1,
        action_of(key) == Some(KeyAction::Backspace) <==> key == 2,
        action_of(key) == Some(KeyAction::Char(' ')) <==> key == 3,
        action_of(key) is Some <==> 1 <= key <= 3 || 10 <= key <= 35 || 40 <= key <= 49,
{
    reveal_strlit("abcdefghijklmnopqrstuvwxyz");
    reveal_strlit("0123456789");
}

/// No two codes mean the same.
pub proof fn law_key_codes_differ(a: u8, b: u8)
    requires
        a != b,
        action_of(a) is Some,
    ensures
        action_of(a) != action_of(b),
{
    law_key_codes(a);
    law_key_codes(b);
}

} // verus!
