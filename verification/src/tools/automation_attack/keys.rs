//! Typing by scan codes, and finding the program that reads unknown prompts.

use crate::platform::input::WaitAction;
use crate::platform::win32;
use crate::platform::win32::{Input, Rect};
use crate::text;
use vstd::prelude::*;
use vstd::string::*;

verus! {

/// The characters of a text that can be typed, as they are: its ASCII letters.
pub open spec fn typed(s: Seq<char>) -> Seq<char> {
    s.filter(|c: char| text::is_letter(c))
}

/// The characters of a text that can be typed, as they are: its ASCII letters.
pub fn typed_letters(s: &str) -> (v: Vec<char>)
    ensures
        v@ == typed(s@),
        forall|i: int| 0 <= i < v.len() ==> text::is_letter(#[trigger] v@[i]),
{
    let ghost keep = |c: char| text::is_letter(c);
    let chars = text::chars_of(s);
    let mut v: Vec<char> = Vec::new();
    let mut i: usize = 0;
    proof {
        crate::blobs::lemma_filter_start(s@, keep);
    }
    while i < chars.len()
        invariant
            i <= chars.len(),
            chars@ == s@,
            keep == (|c: char| text::is_letter(c)),
            v@ == s@.take(i as int).filter(keep),
            forall|k: int| 0 <= k < v.len() ==> text::is_letter(#[trigger] v@[k]),
        decreases chars.len() - i,
    {
        let c = chars[i];
        proof {
            crate::blobs::lemma_filter_step(s@, i as int, keep);
        }
        if text::letter(c) {
            v.push(c);
        }
        i = i + 1;
    }
    assert(s@.take(i as int) =~= s@);
    v
}

/// The number of a letter's key: that of its capital.
pub fn virtual_key(c: char) -> (vk: u32)
    requires
        text::is_letter(c),
    ensures
        vk == text::upper(c) as u32,
        65 <= vk <= 90,
{
    text::to_upper(c) as u32
}

/// The events that press and release a key with this scan code, or none where there is no such key.
pub fn scan_inputs(scan: u16) -> (r: Option<(Input, Input)>)
    ensures
        r is Some <==> scan != 0,
        r matches Some(e) ==> e == (
            win32::keyboard_input(0, scan, win32::KEYEVENTF_SCANCODE),
            win32::keyboard_input(0, scan, win32::KEYEVENTF_SCANCODE_UP),
        ),
{
    if scan == 0 {
        None
    } else {
        Some(
            (
                win32::make_input(0, scan, win32::KEYEVENTF_SCANCODE),
                win32::make_input(0, scan, win32::KEYEVENTF_SCANCODE_UP),
            ),
        )
    }
}

/// The release flag is the one of a scan code and the one of a release together.
pub proof fn lemma_release_flag()
    ensures
        win32::KEYEVENTF_SCANCODE_UP == win32::KEYEVENTF_SCANCODE | win32::KEYEVENTF_KEYUP,
{
    assert(0x000au32 == 0x0008u32 | 0x0002u32) by (bit_vector);
}

/// The message for a letter that has no scan code.
pub open spec fn unmapped(c: char) -> Seq<char> {
    "cannot map key "@ + seq![c] + " to scan code"@
}

/// The message for a letter that has no scan code.
pub fn unmapped_error(c: char) -> (message: String)
    ensures
        message@ == unmapped(c),
{
    let mut out = text::copy("cannot map key ");
    out.push(c);
    out.append(" to scan code");
    assert(out@ =~= unmapped(c));
    out
}

/// How far typing has come with a letter.
#[derive(Clone, Copy, Debug, PartialEq, Eq, Structural)]
pub enum TypingStage {
    /// The scan code of the letter is asked for.
    Looking,
    /// The events of the letter are being sent.
    Sending,
    /// A letter has failed; nothing more is typed.
    Stopped,
}

/// The typing of a text, letter by letter.
pub struct Typing {
    pub letters: Vec<char>,
    /// How many letters have been typed.
    pub done: usize,
    pub stage: TypingStage,
}

/// The typing of a text, as values.
#[verifier::ext_equal]
pub struct TypingView {
    pub letters: Seq<char>,
    pub done: int,
    pub stage: TypingStage,
}

impl View for Typing {
    type V = TypingView;

    open spec fn view(&self) -> TypingView {
        TypingView { letters: self.letters@, done: self.done as int, stage: self.stage }
    }
}

impl TypingView {
    /// Only letters are typed, and events are sent only of a letter that is there.
    pub open spec fn wf(self) -> bool {
        &&& 0 <= self.done <= self.letters.len()
        &&& forall|i: int| 0 <= i < self.letters.len() ==> text::is_letter(#[trigger] self.letters[i])
        &&& self.stage is Sending ==> self.done < self.letters.len()
    }

    /// A letter waits for its scan code.
    pub open spec fn looking(self) -> bool {
        self.stage is Looking && self.done < self.letters.len()
    }

    /// After the scan code of the letter has come: without one, typing stops.
    pub open spec fn after_scan(self, scan: u16) -> TypingView {
        TypingView {
            stage: if scan != 0 {
                TypingStage::Sending
            } else {
                TypingStage::Stopped
            },
            ..self
        }
    }

    /// After the two events of the letter were sent: where not both were taken, typing stops.
    pub open spec fn after_send(self, count: u32) -> TypingView {
        if count == 2 {
            TypingView { done: self.done + 1, stage: TypingStage::Looking, ..self }
        } else {
            TypingView { stage: TypingStage::Stopped, ..self }
        }
    }
}

/// The start of typing a text.
pub open spec fn typing_start(s: Seq<char>) -> TypingView {
    TypingView { letters: typed(s), done: 0, stage: TypingStage::Looking }
}

/// Typing after some letters were tried, for the scan code of each and how many of its events were taken.
pub open spec fn typing_after(v: TypingView, answers: Seq<(u16, u32)>) -> TypingView
    decreases answers.len(),
{
    if answers.len() == 0 {
        v
    } else {
        let before = typing_after(v, answers.drop_last());
        if !before.looking() {
            before
        } else {
            let looked = before.after_scan(answers.last().0);
            if looked.stage is Sending {
                looked.after_send(answers.last().1)
            } else {
                looked
            }
        }
    }
}

/// A letter was typed: it has a scan code and both of its events were taken.
pub open spec fn letter_typed(answer: (u16, u32)) -> bool {
    answer.0 != 0 && answer.1 == 2
}

/// The letters of a text are typed one after the other up to the first that fails, and none follows it. Where
/// none fails, all are typed.
pub proof fn lemma_typing_stops(s: Seq<char>, answers: Seq<(u16, u32)>, good: int)
    requires
        0 <= good <= answers.len() <= typed(s).len(),
        forall|i: int| 0 <= i < good ==> letter_typed(#[trigger] answers[i]),
        good < answers.len() ==> !letter_typed(answers[good]),
    ensures
        ({
            let v = typing_after(typing_start(s), answers);
            &&& v.done == good
            &&& v.letters == typed(s)
            &&& v.stage is Stopped <==> good < answers.len()
            &&& v.looking() <==> good == answers.len() < typed(s).len()
        }),
    decreases answers.len(),
{
    if answers.len() > 0 {
        let t = answers.drop_last();
        let less = if good < answers.len() {
            good
        } else {
            good - 1
        };
        assert forall|i: int| 0 <= i < less implies letter_typed(#[trigger] t[i]) by {
            assert(letter_typed(answers[i]));
        }
        if good < t.len() {
            assert(t[good] == answers[good]);
        }
        if good == answers.len() {
            assert(letter_typed(answers[good - 1]));
        }
        lemma_typing_stops(s, t, less);
    }
}

impl Typing {
    /// Starts typing the letters of a text.
    pub fn new(s: &str) -> (t: Self)
        ensures
            t@ == typing_start(s@),
            t@.wf(),
    {
        let t = Typing { letters: typed_letters(s), done: 0, stage: TypingStage::Looking };
        assert(t@ =~= typing_start(s@));
        t
    }

    /// The number of the key whose scan code is asked for, or none where nothing more is typed.
    pub fn wanted(&self) -> (vk: Option<u32>)
        requires
            self@.wf(),
        ensures
            vk is Some <==> self@.looking(),
            vk matches Some(k) ==> k == text::upper(self@.letters[self@.done]) as u32,
    {
        match self.stage {
            TypingStage::Looking => {
                if self.done < self.letters.len() {
                    Some(virtual_key(self.letters[self.done]))
                } else {
                    None
                }
            },
            _ => None,
        }
    }

    /// Takes in the scan code of the letter, zero where it has none. Returns the events that press and release
    /// its key, or the message that it has no scan code.
    pub fn scanned(&mut self, scan: u16) -> (r: Result<(Input, Input), String>)
        requires
            old(self)@.wf(),
            old(self)@.looking(),
        ensures
            final(self)@ == old(self)@.after_scan(scan),
            final(self)@.wf(),
            r is Ok <==> scan != 0,
            r matches Ok(e) ==> e == (
                win32::keyboard_input(0, scan, win32::KEYEVENTF_SCANCODE),
                win32::keyboard_input(0, scan, win32::KEYEVENTF_SCANCODE_UP),
            ),
            r matches Err(message) ==> message@ == unmapped(old(self)@.letters[old(self)@.done]),
    {
        match scan_inputs(scan) {
            Some(events) => {
                self.stage = TypingStage::Sending;
                Ok(events)
            },
            None => {
                self.stage = TypingStage::Stopped;
                Err(unmapped_error(self.letters[self.done]))
            },
        }
    }

    /// Takes in how many of the two events were taken. Returns whether typing goes on.
    pub fn sent(&mut self, count: u32) -> (goes_on: bool)
        requires
            old(self)@.wf(),
            old(self)@.stage is Sending,
        ensures
            final(self)@ == old(self)@.after_send(count),
            final(self)@.wf(),
            goes_on == (count == 2),
    {
        if count == 2 {
            assert(self.letters.len() <= usize::MAX);
            self.done = self.done + 1;
            self.stage = TypingStage::Looking;
            true
        } else {
            self.stage = TypingStage::Stopped;
            false
        }
    }
}

/// The part of the game that is searched for the prompt: all of it.
pub fn search_rect_from_game(game: Rect) -> (r: Rect)
    ensures
        r == game,
{
    game
}

/// Where the reading program is usually installed.
pub open spec fn usual_program() -> Seq<char> {
    "C:\\Program Files\\Tesseract-OCR\\tesseract.exe"@
}

/// Where the reading program is usually installed.
pub fn usual_path() -> (path: String)
    ensures
        path@ == usual_program(),
{
    text::copy("C:\\Program Files\\Tesseract-OCR\\tesseract.exe")
}

/// The reading program: the one that was asked for, where it exists or is left to the system to find;
/// otherwise the one at its usual place, then the one that the system finds.
pub open spec fn program(explicit: Option<(Seq<char>, bool)>, usual_exists: bool, runs: bool) -> Option<Seq<char>> {
    match explicit {
        Some((path, there)) => if there || path == "tesseract"@ {
            Some(path)
        } else {
            None
        },
        None => if usual_exists {
            Some(usual_program())
        } else if runs {
            Some("tesseract"@)
        } else {
            None
        },
    }
}

/// The message where there is no reading program.
pub open spec fn program_missing(explicit: Option<(Seq<char>, bool)>) -> Seq<char> {
    match explicit {
        Some((path, _)) => "Tesseract not found: "@ + path,
        None => "Tesseract not found. Install Tesseract OCR or provide --tesseract <path-to-tesseract.exe>"@,
    }
}

/// The view of a path that was asked for and whether it exists.
pub open spec fn asked(explicit: Option<(String, bool)>) -> Option<(Seq<char>, bool)> {
    match explicit {
        Some((path, there)) => Some((path@, there)),
        None => None,
    }
}

fn same_text(a: &str, b: &str) -> (same: bool)
    ensures
        same == (a@ == b@),
{
    let x = text::chars_of(a);
    let y = text::chars_of(b);
    if x.len() != y.len() {
        return false;
    }
    let mut i: usize = 0;
    while i < x.len()
        invariant
            i <= x.len(),
            x.len() == y.len(),
            x@ == a@,
            y@ == b@,
            forall|k: int| 0 <= k < i ==> x@[k] == y@[k],
        decreases x.len() - i,
    {
        if x[i] != y[i] {
            assert(a@[i as int] != b@[i as int]);
            return false;
        }
        i = i + 1;
    }
    assert(a@ =~= b@);
    true
}

/// Finds the reading program. `usual_exists` says whether there is a file at its usual place, `runs`
/// whether the system finds one by its name.
pub fn resolve_tesseract(explicit: Option<(String, bool)>, usual_exists: bool, runs: bool) -> (r: Result<
    String,
    String,
>)
    ensures
        r is Ok <==> program(asked(explicit), usual_exists, runs) is Some,
        r matches Ok(path) ==> program(asked(explicit), usual_exists, runs) == Some(path@),
        r matches Err(message) ==> message@ == program_missing(asked(explicit)),
{
    match explicit {
        Some((path, there)) => {
            if there || same_text(path.as_str(), "tesseract") {
                Ok(path)
            } else {
                let mut message = text::copy("Tesseract not found: ");
                message.append(path.as_str());
                Err(message)
            }
        },
        None => {
            if usual_exists {
                Ok(usual_path())
            } else if runs {
                Ok(text::copy("tesseract"))
            } else {
                Err(
                    text::copy(
                        "Tesseract not found. Install Tesseract OCR or provide --tesseract <path-to-tesseract.exe>",
                    ),
                )
            }
        },
    }
}

/// For how long it is shown that there is no reading program, in nanoseconds.
pub const MISSING_TIME: u64 = 10_000_000_000;

/// How often a stop is looked for meanwhile, in nanoseconds.
pub const MISSING_POLL: u64 = 100_000_000;

/// The lines that tell that there is no reading program.
pub fn missing_lines() -> (lines: Vec<String>)
    ensures
        text::values(lines@) == seq![
            "Tesseract OCR not installed"@,
            "Install Tesseract OCR to use this tool"@,
            "quitting in 10s or Ctrl+Shift+Q"@,
        ],
{
    let mut lines: Vec<String> = Vec::new();
    lines.push(text::copy("Tesseract OCR not installed"));
    lines.push(text::copy("Install Tesseract OCR to use this tool"));
    lines.push(text::copy("quitting in 10s or Ctrl+Shift+Q"));
    assert(text::values(lines@) =~= seq![
        "Tesseract OCR not installed"@,
        "Install Tesseract OCR to use this tool"@,
        "quitting in 10s or Ctrl+Shift+Q"@,
    ]);
    lines
}

/// What to do while it is shown that there is no reading program, after `elapsed` nanoseconds: wait on until
/// ten seconds have passed or a stop is asked for.
pub fn missing_wait(elapsed: u64, stop: bool) -> (action: WaitAction)
    ensures
        action == if elapsed < MISSING_TIME && !stop {
            WaitAction::Sleep { nanos: MISSING_POLL }
        } else {
            WaitAction::Done { stopped: stop }
        },
{
    if elapsed < MISSING_TIME && !stop {
        WaitAction::Sleep { nanos: MISSING_POLL }
    } else {
        WaitAction::Done { stopped: stop }
    }
}

/// What is typed of a text is what is typed of its parts, one after the other; of a letter that letter, and of any other
/// character nothing.
pub proof fn lemma_typed(a: Seq<char>, b: Seq<char>, c: char)
    ensures
        typed(a + b) == typed(a) + typed(b),
        typed(seq![c]) == (if ('a' <= c && c <= 'z') || ('A' <= c && c <= 'Z') {
            seq![c]
        } else {
            Seq::empty()
        }),
{
    let keep = |c: char| text::is_letter(c);
    Seq::filter_distributes_over_add(a, b, keep);
    reveal_with_fuel(Seq::filter, 2);
    assert(seq![c].drop_last() =~= Seq::empty());
    assert(seq![c].last() == c);
    assert(typed(seq![c]) =~= if keep(c) {
        seq![c]
    } else {
        Seq::empty()
    });
}

} // verus!
