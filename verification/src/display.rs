//! Terminal UI state and layout for the Cardputer's 240x135 display.
//!
//! Keeps a small scrolling log of recent messages plus the current input line,
//! and lays them out as runs of text for whatever draws them.

use crate::bounded::{text_fits, BoundedDeque, BoundedString, BoundedVec};
use crate::bridge::{DisplayLine, LineView};
use crate::keyboard::{action_of, decode_key, law_key_codes, KeyAction, KeyEvent};
use crate::proto::Transport;
use crate::text::{
    first_chars, law_packed_keeps_beginning, lemma_encode_concat, lemma_packed_concat,
    lemma_packed_whole, packed, packed_onto, push_chars, push_first_chars,
};
use vstd::prelude::*;
use vstd::utf8::{encode_utf8, is_ascii_chars, is_ascii_chars_encode_utf8};

verus! {

/// How many lines the log holds.
pub const LOG_CAPACITY: usize = 8;

/// The most runs of text on the screen: title, status, log and input.
pub const MAX_RUNS: usize = 11;

/// Colours on the screen.
#[derive(Debug, Clone, Copy, PartialEq, Eq, Structural)]
pub enum Color {
    White,
    Gray,
    Orange,
    Cyan,
    LightGreen,
    Yellow,
}

/// Some text at a place on the screen. The place is the top left corner.
pub struct TextRun {
    pub text: BoundedString<66>,
    pub x: i32,
    pub y: i32,
    pub color: Color,
}

/// What a run of text says.
#[verifier::ext_equal]
pub struct RunView {
    pub text: Seq<char>,
    pub x: i32,
    pub y: i32,
    pub color: Color,
}

impl View for TextRun {
    type V = RunView;

    open spec fn view(&self) -> RunView {
        RunView { text: self.text@, x: self.x, y: self.y, color: self.color }
    }
}

/// What came of a key.
pub struct KeyEffect {
    /// Whether the screen has to be drawn again.
    pub dirty: bool,
    /// The text to send, if one was finished.
    pub send: Option<BoundedString<64>>,
}

/// The colour of messages that entered the mesh on a transport.
pub open spec fn color_of(origin: Transport) -> Color {
    match origin {
        Transport::Lora => Color::Orange,
        Transport::Mqtt => Color::Cyan,
        Transport::EspNow => Color::LightGreen,
    }
}

/// A log line as it is shown: where the message entered the mesh, then its text, as
/// much as 56 bytes can hold.
pub open spec fn shown_line(line: LineView) -> Seq<char> {
    packed("["@ + line.origin.name() + "] "@ + line.text, 56)
}

/// A status as it is shown: as much of its first 31 characters as 32 bytes can
/// hold.
pub open spec fn shown_status(text: Seq<char>) -> Seq<char> {
    packed(first_chars(text, 31), 32)
}

/// The state of the screen.
#[verifier::ext_equal]
pub struct UiView {
    /// The log, oldest line first.
    pub log: Seq<LineView>,
    pub input: Seq<char>,
    pub status: Seq<char>,
}

impl UiView {
    /// The run that shows line `i` of the log.
    pub open spec fn log_run(self, i: int) -> RunView {
        RunView {
            text: shown_line(self.log[i]),
            x: 2,
            y: (14 + 12 * i) as i32,
            color: color_of(self.log[i].origin),
        }
    }

    /// All that is on the screen: the title, the status, the log from the top,
    /// and the input line at the bottom.
    pub open spec fn layout(self) -> Seq<RunView> {
        seq![
            RunView { text: "RelayStar"@, x: 2, y: 0, color: Color::White },
            RunView { text: self.status, x: 80, y: 0, color: Color::Gray },
        ] + Seq::new(self.log.len(), |i: int| self.log_run(i)) + seq![
            RunView { text: "> "@ + self.input, x: 2, y: 124, color: Color::Yellow },
        ]
    }

    /// The screen after a line was added to the log; the oldest line goes when
    /// the log is full.
    pub open spec fn with_line(self, line: LineView) -> UiView {
        let log = if self.log.len() >= LOG_CAPACITY {
            self.log.drop_first()
        } else {
            self.log
        };
        UiView { log: log.push(line), ..self }
    }

    /// The screen after a key event, whether it has to be drawn again, and the
    /// text to send.
    pub open spec fn after_key(self, ev: KeyEvent) -> (UiView, bool, Option<Seq<char>>) {
        if !ev.pressed {
            (self, false, None)
        } else {
            match action_of(ev.key) {
                None => (self, false, None),
                Some(KeyAction::Char(c)) => (
                    UiView { input: packed_onto(self.input, seq![c], 64), ..self },
                    true,
                    None,
                ),
                Some(KeyAction::Backspace) => (
                    UiView {
                        input: if self.input.len() > 0 {
                            self.input.drop_last()
                        } else {
                            self.input
                        },
                        ..self
                    },
                    true,
                    None,
                ),
                Some(KeyAction::Enter) => if self.input.len() > 0 {
                    (UiView { input: Seq::empty(), ..self }, true, Some(self.input))
                } else {
                    (self, true, None)
                },
            }
        }
    }
}

/// Screen state: message log, input buffer and status.
pub struct Ui {
    log: BoundedDeque<DisplayLine, LOG_CAPACITY>,
    input: BoundedString<64>,
    status: BoundedString<32>,
}

/// What some lines say.
pub open spec fn line_views(lines: Seq<DisplayLine>) -> Seq<LineView> {
    Seq::new(lines.len(), |i: int| lines[i]@)
}

/// What some runs of text say.
pub open spec fn run_views(runs: Seq<TextRun>) -> Seq<RunView> {
    Seq::new(runs.len(), |i: int| runs[i]@)
}

impl View for Ui {
    type V = UiView;

    closed spec fn view(&self) -> UiView {
        UiView { log: line_views(self.log@), input: self.input@, status: self.status@ }
    }
}

/// Copy a text that fits into a run.
fn run_text(text: &str) -> (t: BoundedString<66>)
    requires
        text_fits(text@, 66),
    ensures
        t@ == text@,
{
    let mut t: BoundedString<66> = BoundedString::new();
    assert(Seq::<char>::empty() + text@ =~= text@);
    let _ = t.push_str(text);
    t
}

impl Ui {
    /// The log is not overfull.
    pub closed spec fn wf(&self) -> bool {
        self.log@.len() <= LOG_CAPACITY
    }

    /// A screen with an empty log and input.
    pub fn new() -> (u: Self)
        ensures
            u.wf(),
            u@ == (UiView { log: Seq::empty(), input: Seq::empty(), status: "booting..."@ }),
    {
        let mut status: BoundedString<32> = BoundedString::new();
        proof {
            reveal_strlit("booting...");
            assert(is_ascii_chars("booting..."@));
            is_ascii_chars_encode_utf8("booting..."@);
            assert(Seq::<char>::empty() + "booting..."@ =~= "booting..."@);
        }
        let _ = status.push_str("booting...");
        let u = Ui { log: BoundedDeque::new(), input: BoundedString::new(), status };
        assert(u@.log =~= Seq::empty());
        u
    }

    /// The text typed so far.
    pub fn input(&self) -> (s: &str)
        ensures
            s@ == self@.input,
    {
        self.input.as_str()
    }

    /// The status line.
    pub fn status(&self) -> (s: &str)
        ensures
            s@ == self@.status,
    {
        self.status.as_str()
    }

    /// Set the status line: as much of the first 31 characters as 32 bytes can
    /// hold.
    pub fn set_status(&mut self, s: &str)
        requires
            old(self).wf(),
        ensures
            final(self).wf(),
            final(self)@.status == shown_status(s@),
            final(self)@ == (UiView { status: packed(first_chars(s@, 31), 32), ..old(self)@ }),
    {
        self.status.clear();
        push_first_chars(&mut self.status, s, 31);
    }

    /// Append a line to the scrolling log (evicting the oldest if full).
    pub fn push_log(&mut self, line: DisplayLine)
        requires
            old(self).wf(),
        ensures
            final(self).wf(),
            final(self)@ == old(self)@.with_line(line@),
    {
        let ghost before = self@;
        if self.log.is_full() {
            let _ = self.log.pop_front();
        }
        let _ = self.log.push_back(line);
        assert(self@.log =~= before.with_line(line@).log);
    }

    /// Handle a key event: type, erase, or finish the input line.
    pub fn on_key(&mut self, ev: KeyEvent) -> (e: KeyEffect)
        requires
            old(self).wf(),
        ensures
            final(self).wf(),
            ({
                let (after, dirty, send) = old(self)@.after_key(ev);
                &&& final(self)@ == after
                &&& e.dirty == dirty
                &&& e.send is Some <==> send is Some
                &&& e.send is Some ==> Some(e.send->0@) == send
            }),
    {
        if !ev.pressed {
            return KeyEffect { dirty: false, send: None };
        }
        match decode_key(ev.key) {
            Some(KeyAction::Char(c)) => {
                let _ = self.input.push(c);
                proof {
                    reveal_with_fuel(packed_onto, 2);
                    assert(seq![c].drop_last() =~= Seq::empty());
                }
                KeyEffect { dirty: true, send: None }
            },
            Some(KeyAction::Backspace) => {
                let _ = self.input.pop();
                KeyEffect { dirty: true, send: None }
            },
            Some(KeyAction::Enter) => {
                if !self.input.is_empty() {
                    let text = self.input.clone();
                    self.input.clear();
                    return KeyEffect { dirty: true, send: Some(text) };
                }
                KeyEffect { dirty: true, send: None }
            },
            None => KeyEffect { dirty: false, send: None },
        }
    }

    fn color_for(origin: Transport) -> (c: Color)
        ensures
            c == color_of(origin),
    {
        match origin {
            Transport::Lora => Color::Orange,
            Transport::Mqtt => Color::Cyan,
            Transport::EspNow => Color::LightGreen,
        }
    }

    /// A log line as it is shown.
    fn line_text(line: &DisplayLine) -> (t: BoundedString<66>)
        ensures
            t@ == shown_line(line@),
    {
        let mut buf: BoundedString<56> = BoundedString::new();
        push_chars(&mut buf, "[");
        push_chars(&mut buf, line.origin.as_str());
        push_chars(&mut buf, "] ");
        push_chars(&mut buf, line.text.as_str());
        proof {
            let e = Seq::<char>::empty();
            let (a, b, c, d) = ("["@, line.origin.name(), "] "@, line.text@);
            lemma_packed_concat(e, a, b, 56);
            lemma_packed_concat(e, a + b, c, 56);
            lemma_packed_concat(e, a + b + c, d, 56);
        }
        run_text(buf.as_str())
    }

    /// Lay out the whole screen.
    pub fn render(&self) -> (runs: BoundedVec<TextRun, MAX_RUNS>)
        requires
            self.wf(),
        ensures
            run_views(runs@) == self@.layout(),
    {
        let mut runs: BoundedVec<TextRun, MAX_RUNS> = BoundedVec::new();
        proof {
            reveal_strlit("RelayStar");
            reveal_strlit("> ");
            assert(is_ascii_chars("RelayStar"@));
            is_ascii_chars_encode_utf8("RelayStar"@);
            assert(is_ascii_chars("> "@));
            is_ascii_chars_encode_utf8("> "@);
        }
        let _ = runs.push(TextRun { text: run_text("RelayStar"), x: 2, y: 0, color: Color::White });
        let _ = runs.push(
            TextRun { text: run_text(self.status.as_str()), x: 80, y: 0, color: Color::Gray },
        );
        let ghost head = run_views(runs@);
        let (front, back) = self.log.as_slices();
        let ghost lines = front@ + back@;
        let count = front.len() + back.len();
        let mut i: usize = 0;
        let mut y: i32 = 14;
        while i < count
            invariant
                i <= count <= LOG_CAPACITY,
                count == front@.len() + back@.len(),
                lines == front@ + back@,
                lines == self.log@,
                y == 14 + 12 * i,
                head.len() == 2,
                runs@.len() == 2 + i,
                run_views(runs@) == head + Seq::new(i as nat, |k: int| self@.log_run(k)),
            decreases count - i,
        {
            let line = if i < front.len() {
                &front[i]
            } else {
                &back[i - front.len()]
            };
            assert(*line == lines[i as int]);
            assert(self@.log[i as int] == line@);
            let run = TextRun {
                text: Self::line_text(line),
                x: 2,
                y,
                color: Self::color_for(line.origin),
            };
            let ghost so_far = runs@;
            let _ = runs.push(run);
            assert(run@ == self@.log_run(i as int));
            assert(run_views(runs@) =~= run_views(so_far).push(run@));
            y += 12;
            i += 1;
            assert(run_views(runs@) =~= head + Seq::new(i as nat, |k: int| self@.log_run(k)));
        }
        let mut input: BoundedString<66> = BoundedString::new();
        push_chars(&mut input, "> ");
        let typed = self.input.as_str();
        push_chars(&mut input, typed);
        proof {
            let e = Seq::<char>::empty();
            lemma_packed_concat(e, "> "@, typed@, 66);
            lemma_encode_concat("> "@, typed@);
            assert(e + ("> "@ + typed@) =~= "> "@ + typed@);
            lemma_packed_whole(e, "> "@ + typed@, 66);
        }
        let ghost so_far = runs@;
        let run = TextRun { text: input, x: 2, y: 124, color: Color::Yellow };
        let _ = runs.push(run);
        proof {
            assert(run_views(runs@) =~= run_views(so_far).push(run@));
            assert(head =~= self@.layout().take(2));
            assert(run_views(runs@) =~= self@.layout());
        }
        runs
    }
}

impl Default for Ui {
    fn default() -> (u: Self)
        ensures
            u.wf(),
            u@ == (UiView { log: Seq::empty(), input: Seq::empty(), status: "booting..."@ }),
    {
        Self::new()
    }
}

// ---------------------------------------------------------------------------
// Laws
// ---------------------------------------------------------------------------

/// The screen after some lines were added to the log one after the other.
pub open spec fn with_lines(ui: UiView, lines: Seq<LineView>) -> UiView
    decreases lines.len(),
{
    if lines.len() == 0 {
        ui
    } else {
        with_lines(ui, lines.drop_last()).with_line(lines.last())
    }
}

/// The log shows exactly the most recent lines, at most [`LOG_CAPACITY`] of
/// them; input and status do not change.
pub proof fn law_log_shows_latest(ui: UiView, lines: Seq<LineView>)
    requires
        ui.log.len() <= LOG_CAPACITY,
    ensures
        ({
            let all = ui.log + lines;
            let after = with_lines(ui, lines);
            &&& after.log == if all.len() <= LOG_CAPACITY {
                all
            } else {
                all.skip(all.len() - LOG_CAPACITY)
            }
            &&& after.input == ui.input
            &&& after.status == ui.status
        }),
    decreases lines.len(),
{
    let all = ui.log + lines;
    if lines.len() == 0 {
        assert(all =~= ui.log);
    } else {
        law_log_shows_latest(ui, lines.drop_last());
        assert(all =~= (ui.log + lines.drop_last()).push(lines.last()));
        let after = with_lines(ui, lines);
        if all.len() <= LOG_CAPACITY {
            assert(after.log =~= all);
        } else {
            assert(after.log =~= all.skip(all.len() - LOG_CAPACITY));
        }
    }
}

/// The screen after keys were pressed one after the other.
pub open spec fn after_keys(ui: UiView, keys: Seq<u8>) -> UiView
    decreases keys.len(),
{
    if keys.len() == 0 {
        ui
    } else {
        after_keys(ui, keys.drop_last()).after_key(
            KeyEvent { key: keys.last(), pressed: true },
        ).0
    }
}

/// The characters that some keys type.
pub open spec fn typed(keys: Seq<u8>) -> Seq<char> {
    Seq::new(keys.len(), |i: int| action_of(keys[i])->0->Char_0)
}

/// What is typed into an empty input line, up to its 64 bytes, is what Enter
/// then sends; the line is empty again afterwards.
pub proof fn law_enter_sends_what_was_typed(ui: UiView, keys: Seq<u8>)
    requires
        ui.input.len() == 0,
        0 < keys.len() <= 64,
        forall|i: int|
            0 <= i < keys.len() ==> action_of(#[trigger] keys[i]) matches Some(KeyAction::Char(_)),
    ensures
        after_keys(ui, keys).input == typed(keys),
        after_keys(ui, keys).after_key(KeyEvent { key: 1, pressed: true }) == (
            UiView { input: Seq::empty(), ..ui },
            true,
            Some(typed(keys)),
        ),
{
    lemma_typed(ui, keys, keys.len());
    assert(keys.take(keys.len() as int) =~= keys);
}

proof fn lemma_typed(ui: UiView, keys: Seq<u8>, n: nat)
    requires
        ui.input.len() == 0,
        n <= keys.len() <= 64,
        forall|i: int|
            0 <= i < keys.len() ==> action_of(#[trigger] keys[i]) matches Some(KeyAction::Char(_)),
    ensures
        after_keys(ui, keys.take(n as int)) == (UiView {
            input: typed(keys.take(n as int)),
            ..ui
        }),
        is_ascii_chars(typed(keys.take(n as int))),
    decreases n,
{
    let now = keys.take(n as int);
    if n == 0 {
        assert(now =~= Seq::empty());
        assert(typed(now) =~= ui.input);
    } else {
        lemma_typed(ui, keys, (n - 1) as nat);
        let before = keys.take(n - 1);
        assert(now.drop_last() =~= before);
        let key = keys[n - 1];
        let c = action_of(key)->0->Char_0;
        reveal_strlit("abcdefghijklmnopqrstuvwxyz");
        reveal_strlit("0123456789");
        assert(typed(now) =~= typed(before).push(c));
        is_ascii_chars_encode_utf8(typed(now));
        assert(typed(before) + seq![c] =~= typed(now));
        lemma_packed_whole(typed(before), seq![c], 64);
    }
}

/// No key touches the log or the status, and what is released, or means
/// nothing, does nothing at all.
pub proof fn law_keys_touch_the_input_only(ui: UiView, ev: KeyEvent)
    ensures
        ({
            let (after, dirty, send) = ui.after_key(ev);
            &&& after.log == ui.log
            &&& after.status == ui.status
            &&& !ev.pressed || action_of(ev.key) is None ==> after == ui && !dirty && send is None
            &&& ev.pressed && action_of(ev.key) is Some ==> dirty
            &&& send is Some <==> ev.pressed && ev.key == 1 && ui.input.len() > 0
        }),
{
    law_key_codes(ev.key);
}

/// Enter sends what is in the input line and empties it, if there is anything.
pub proof fn law_enter(ui: UiView)
    ensures
        ({
            let (after, dirty, send) = ui.after_key(KeyEvent { key: 1, pressed: true });
            &&& after.input.len() == 0
            &&& ui.input.len() > 0 ==> send == Some(ui.input)
            &&& ui.input.len() == 0 ==> send is None
        }),
{
}

/// A key that types appends its character as long as the line has room for it,
/// and Backspace takes it away again. A character that finds no room is not
/// typed.
pub proof fn law_backspace_undoes_typing(ui: UiView, key: u8, c: char)
    requires
        action_of(key) == Some(KeyAction::Char(c)),
    ensures
        ({
            let typed = ui.after_key(KeyEvent { key, pressed: true }).0;
            let erased = typed.after_key(KeyEvent { key: 2, pressed: true }).0;
            &&& encode_utf8(ui.input.push(c)).len() <= 64 ==> typed.input == ui.input.push(c)
                && erased == ui
            &&& encode_utf8(ui.input.push(c)).len() > 64 ==> typed == ui
        }),
{
    reveal_with_fuel(packed_onto, 2);
    assert(seq![c].drop_last() =~= Seq::empty());
    assert(ui.input.push(c).drop_last() =~= ui.input);
}

/// Backspace takes the last character away and nothing else.
pub proof fn law_backspace(ui: UiView)
    ensures
        ({
            let after = ui.after_key(KeyEvent { key: 2, pressed: true }).0;
            &&& ui.input.len() > 0 ==> after.input.len() == ui.input.len() - 1
                && after.input.is_prefix_of(ui.input)
            &&& ui.input.len() == 0 ==> after == ui
        }),
{
}

/// What is on the screen: the title, the status, each line of the log in its
/// order and below the one before it, and the input line behind a prompt below
/// them all.
pub proof fn law_layout(ui: UiView, i: int)
    requires
        ui.log.len() <= LOG_CAPACITY,
        0 <= i < ui.log.len(),
    ensures
        ({
            let runs = ui.layout();
            let n = runs.len();
            &&& n == ui.log.len() + 3
            &&& runs[0].text == "RelayStar"@
            &&& runs[1].text == ui.status
            &&& runs[0].y == runs[1].y
            &&& runs[0].x < runs[1].x
            &&& runs[i + 2].text == shown_line(ui.log[i])
            &&& runs[i + 2].color == match ui.log[i].origin {
                Transport::Lora => Color::Orange,
                Transport::Mqtt => Color::Cyan,
                Transport::EspNow => Color::LightGreen,
            }
            &&& runs[i + 2].y >= runs[i + 1].y + 12
            &&& runs[n - 1].text == "> "@ + ui.input
            &&& runs[n - 1].y >= runs[n - 2].y + 12
            &&& forall|k: int|
                0 <= k < n ==> 0 <= (#[trigger] runs[k]).x < 240 && 0 <= runs[k].y <= 135 - 10
        }),
{
    let runs = ui.layout();
    assert(runs[i + 2] == ui.log_run(i));
    if i > 0 {
        assert(runs[i + 1] == ui.log_run(i - 1));
    }
    assert(runs[runs.len() - 2] == ui.log_run(ui.log.len() - 1));
    assert forall|k: int| 0 <= k < runs.len() implies 0 <= (#[trigger] runs[k]).x < 240 && 0
        <= runs[k].y <= 135 - 10 by {
        if 2 <= k < runs.len() - 1 {
            assert(runs[k] == ui.log_run(k - 2));
        }
    }
}

/// A line of the log is shown behind the name of the transport, whole if that
/// is within 56 bytes, and otherwise from its beginning.
pub proof fn law_shown_line(line: LineView, k: nat)
    requires
        k <= line.text.len(),
        encode_utf8("["@ + line.origin.name() + "] "@ + line.text.take(k as int)).len() <= 56,
    ensures
        ("["@ + line.origin.name() + "] "@ + line.text.take(k as int)).is_prefix_of(
            shown_line(line),
        ),
        k == line.text.len() ==> shown_line(line) == "["@ + line.origin.name() + "] "@
            + line.text,
        encode_utf8(shown_line(line)).len() <= 56,
{
    let head = "["@ + line.origin.name() + "] "@;
    let whole = head + line.text;
    let n = head.len() + k;
    assert(whole.take(n as int) =~= head + line.text.take(k as int));
    law_packed_keeps_beginning(whole, n, 56);
    if k == line.text.len() {
        assert(whole.take(n as int) =~= whole);
        assert(shown_line(line) =~= whole);
    }
}

/// Messages from different transports have different colours and names.
pub proof fn law_origins_are_told_apart(a: Transport, b: Transport)
    requires
        a != b,
    ensures
        color_of(a) != color_of(b),
        a.name() != b.name(),
{
    reveal_strlit("lora");
    reveal_strlit("mqtt");
    reveal_strlit("espnow");
    assert(a.name()[0] != b.name()[0]);
}

/// A status of up to 31 characters is shown as it is, if it is within 32
/// bytes; of any other the beginning is shown.
pub proof fn law_status(text: Seq<char>, k: nat)
    requires
        k <= text.len(),
        k <= 31,
        encode_utf8(text.take(k as int)).len() <= 32,
    ensures
        text.take(k as int).is_prefix_of(shown_status(text)),
        k == text.len() ==> shown_status(text) == text,
        shown_status(text).len() <= 31,
        encode_utf8(shown_status(text)).len() <= 32,
{
    let shown = first_chars(text, 31);
    assert(shown.take(k as int) =~= text.take(k as int));
    law_packed_keeps_beginning(shown, k, 32);
    if k == text.len() {
        assert(text.take(k as int) =~= text);
        assert(packed(shown, 32) =~= text);
    }
}

} // verus!
