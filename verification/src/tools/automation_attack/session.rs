//! From prompt to prompt: what is typed, and when outside help is asked for.

use crate::text;
use crate::tools::automation_attack::extract;
use crate::tools::automation_attack::extract::TextImage;
use crate::tools::automation_attack::glyphs;
use crate::tools::automation_attack::templates;
use crate::tools::automation_attack::templates::{FastResult, TemplateDb};
use vstd::prelude::*;
use vstd::string::*;

verus! {

/// A picture is a prompt: it has the shape of one and at least three letters.
pub open spec fn is_prompt(image: extract::ImageView) -> bool {
    glyphs::prompt_shaped(image) && glyphs::glyphs_of(image).len() >= 3
}

/// What some pictures show.
pub open spec fn views(images: Seq<TextImage>) -> Seq<extract::ImageView> {
    images.map_values(|i: TextImage| i@)
}

/// How many of the pictures are prompts.
pub open spec fn prompt_count(images: Seq<extract::ImageView>) -> nat
    decreases images.len(),
{
    if images.len() == 0 {
        0
    } else {
        prompt_count(images.drop_last()) + if is_prompt(images.last()) {
            1nat
        } else {
            0nat
        }
    }
}

/// The position of the largest prompt, the last where several are.
pub open spec fn largest_prompt(images: Seq<extract::ImageView>) -> Option<int>
    decreases images.len(),
{
    if images.len() == 0 {
        None
    } else {
        let before = largest_prompt(images.drop_last());
        let here = (images.len() - 1) as int;
        if !is_prompt(images.last()) {
            before
        } else {
            match before {
                Some(m) => if glyphs::shown_area(images.last()) >= glyphs::shown_area(images[m]) {
                    Some(here)
                } else {
                    Some(m)
                },
                None => Some(here),
            }
        }
    }
}

/// `largest_prompt` is what its name says: there is one exactly where there is a prompt, and no other
/// prompt is larger.
pub proof fn lemma_largest_prompt(images: Seq<extract::ImageView>)
    ensures
        largest_prompt(images) is None <==> prompt_count(images) == 0,
        largest_prompt(images) is None ==> forall|i: int| 0 <= i < images.len() ==> !is_prompt(#[trigger] images[i]),
        largest_prompt(images) matches Some(m) ==> {
            &&& 0 <= m < images.len() && is_prompt(images[m])
            &&& forall|i: int|
                0 <= i < images.len() && is_prompt(#[trigger] images[i]) ==> glyphs::shown_area(images[i])
                    <= glyphs::shown_area(images[m])
        },
    decreases images.len(),
{
    if images.len() > 0 {
        let t = images.drop_last();
        lemma_largest_prompt(t);
        assert forall|i: int| 0 <= i < t.len() implies t[i] == #[trigger] images[i] by {}
    }
}

/// Picks the prompt among some pictures. Returns how many prompts there are and the position of the largest.
pub fn choose_prompt(images: &Vec<TextImage>) -> (r: (usize, Option<usize>))
    requires
        forall|i: int| 0 <= i < images.len() ==> (#[trigger] images@[i])@.wf(),
    ensures
        r.0 == prompt_count(views(images@)),
        r.1 is Some <==> largest_prompt(views(images@)) is Some,
        r.1 matches Some(m) ==> m < images.len() && largest_prompt(views(images@)) == Some(m as int),
{
    let ghost all = views(images@);
    let mut count: usize = 0;
    let mut best: Option<usize> = None;
    let mut i: usize = 0;
    assert(all.take(0).len() == 0);
    while i < images.len()
        invariant
            count <= i <= images.len(),
            all == views(images@),
            forall|k: int| 0 <= k < images.len() ==> (#[trigger] images@[k])@.wf(),
            count == prompt_count(all.take(i as int)),
            best is Some <==> largest_prompt(all.take(i as int)) is Some,
            best matches Some(m) ==> m < i && largest_prompt(all.take(i as int)) == Some(m as int),
        decreases images.len() - i,
    {
        proof {
            assert(all.take(i + 1).drop_last() =~= all.take(i as int));
            assert(all[i as int] == images@[i as int]@);
        }
        if glyphs::likely_prompt_image(&images[i]) {
            let letters = glyphs::segment_glyphs(&images[i]);
            if letters.len() >= 3 {
                count = count + 1;
                let larger: bool = match best {
                    None => true,
                    Some(m) => {
                        assert(all[m as int] == images@[m as int]@);
                        glyphs::prompt_score(&images[i]) >= glyphs::prompt_score(&images[m])
                    },
                };
                if larger {
                    best = Some(i);
                }
            }
        }
        i = i + 1;
    }
    assert(all.take(i as int) =~= all);
    (count, best)
}

/// A digit of a hexadecimal number.
pub open spec fn hex_digit(d: int) -> char {
    if d < 10 {
        (48 + d) as char
    } else {
        (87 + d) as char
    }
}

/// The last `n` hexadecimal digits of a number.
pub open spec fn hex(v: int, n: nat) -> Seq<char>
    decreases n,
{
    if n == 0 {
        Seq::empty()
    } else {
        hex(v / 16, (n - 1) as nat).push(hex_digit(v % 16))
    }
}

fn push_hex(out: &mut String, v: u64, n: u8)
    ensures
        final(out)@ == old(out)@ + hex(v as int, n as nat),
    decreases n,
{
    if n > 0 {
        push_hex(out, v / 16, n - 1);
        let d: u8 = (v % 16) as u8;
        if d < 10 {
            out.push((48 + d) as char);
        } else {
            out.push((87 + d) as char);
        }
    }
    assert(out@ =~= old(out)@ + hex(v as int, n as nat));
}

/// A text with the sixteen hexadecimal digits of a hash behind it.
pub fn with_hash(label: &str, hash: u64) -> (out: String)
    ensures
        out@ == label@ + hex(hash as int, 16),
{
    let mut out = text::copy(label);
    push_hex(&mut out, hash, 16);
    out
}

/// What the tool does with a prompt that is on the screen.
pub enum PromptAction {
    /// Type this; then call `typed`.
    Type(String),
    /// Ask for outside help; then call `queued` or `unavailable`.
    AskForHelp,
    Nothing,
}

/// What the tool remembers from frame to frame.
pub struct Session {
    /// For how many frames there was no prompt.
    pub idle_frames: u32,
    /// The hash of the prompt that was typed last.
    pub typed_hash: Option<u64>,
    /// The hash of the prompt that outside help was asked for last.
    pub asked_hash: Option<u64>,
    pub status: String,
}

/// What the tool remembers, as values.
#[verifier::ext_equal]
pub struct SessionView {
    pub idle_frames: int,
    pub typed_hash: Option<u64>,
    pub asked_hash: Option<u64>,
    pub status: Seq<char>,
}

impl View for Session {
    type V = SessionView;

    open spec fn view(&self) -> SessionView {
        SessionView {
            idle_frames: self.idle_frames as int,
            typed_hash: self.typed_hash,
            asked_hash: self.asked_hash,
            status: self.status@,
        }
    }
}

/// How many frames without a prompt make the tool forget the last one.
pub const FORGET_AFTER: u32 = 3;

/// The characters of a word from a position on.
pub open spec fn rest_of(word: Seq<char>, index: int) -> Seq<char> {
    if index <= word.len() {
        word.skip(index)
    } else {
        Seq::empty()
    }
}

/// The letter at a position, or a question mark.
pub open spec fn letter_at(word: Seq<char>, index: int) -> char {
    if index < word.len() {
        word[index]
    } else {
        '?'
    }
}

/// The status of a word that was read by the templates. The score is in percent with one decimal.
pub open spec fn fast_status(word: Seq<char>, index: int, score: Seq<char>, micros: nat) -> Seq<char> {
    "FAST: "@ + word + " | CURRENT="@ + seq![letter_at(word, index)] + " | TYPE="@ + rest_of(word, index) + " | score="@
        + score + "% | "@ + text::digits(micros) + " us"@
}

/// The status of a word that was read by outside help. The time is in milliseconds with one decimal.
pub open spec fn ocr_status(word: Seq<char>, index: int, millis: Seq<char>, added: nat) -> Seq<char> {
    "OCR: "@ + word + " CURRENT="@ + seq![letter_at(word, index)] + " TYPE="@ + rest_of(word, index) + seq![' ']
        + millis + "ms learned +"@ + text::digits(added)
}

/// A prompt is typed: typing is on, there is something to type, and it was not typed just before.
pub open spec fn types(s: SessionView, hash: u64, rest: Seq<char>, type_words: bool) -> bool {
    type_words && rest.len() > 0 && s.typed_hash != Some(hash)
}

fn char_at(word: &str, index: usize) -> (c: char)
    ensures
        c == letter_at(word@, index as int),
{
    let chars = text::chars_of(word);
    if index < chars.len() {
        chars[index]
    } else {
        '?'
    }
}

fn is_empty(s: &str) -> (yes: bool)
    ensures
        yes == (s@.len() == 0),
{
    text::chars_of(s).len() == 0
}

impl Session {
    /// A tool that has seen nothing yet.
    pub fn new() -> (s: Self)
        ensures
            s@ == (SessionView { idle_frames: 0, typed_hash: None, asked_hash: None, status: Seq::empty() }),
    {
        let s = Session { idle_frames: 0, typed_hash: None, asked_hash: None, status: String::new() };
        assert(s@ =~= SessionView { idle_frames: 0, typed_hash: None, asked_hash: None, status: Seq::empty() });
        s
    }

    /// Takes in a prompt that the templates read. `score` is its score in percent with one decimal, `micros`
    /// the time it took in microseconds.
    pub fn read(&mut self, hash: u64, fast: &FastResult, score: &str, micros: u64, type_words: bool) -> (a: PromptAction)
        ensures
            final(self)@ == (SessionView {
                idle_frames: 0,
                status: fast_status(fast.word@, fast.current_index as int, score@, micros as nat),
                ..old(self)@
            }),
            types(old(self)@, hash, rest_of(fast.word@, fast.current_index as int), type_words) <==> a is Type,
            a matches PromptAction::Type(rest) ==> rest@ == rest_of(fast.word@, fast.current_index as int),
            !(a is AskForHelp),
            a matches PromptAction::Type(rest) ==> {
                &&& type_words
                &&& old(self)@.typed_hash != Some(hash)
                &&& rest@.len() > 0
                &&& fast.word@ == fast.word@.take(fast.current_index as int) + rest@
            },
    {
        proof {
            if fast.current_index <= fast.word@.len() {
                assert(fast.word@ =~= fast.word@.take(fast.current_index as int) + rest_of(
                    fast.word@,
                    fast.current_index as int,
                ));
            }
        }
        self.idle_frames = 0;
        let rest = glyphs::suffix_from(fast.word.as_str(), fast.current_index);
        let mut status = text::copy("FAST: ");
        status.append(fast.word.as_str());
        status.append(" | CURRENT=");
        status.push(char_at(fast.word.as_str(), fast.current_index));
        status.append(" | TYPE=");
        status.append(rest.as_str());
        status.append(" | score=");
        status.append(score);
        status.append("% | ");
        text::push_nat(&mut status, micros);
        status.append(" us");
        assert(status@ =~= fast_status(fast.word@, fast.current_index as int, score@, micros as nat));
        self.status = status;
        let again: bool = match self.typed_hash {
            Some(h) => h == hash,
            None => false,
        };
        if type_words && !is_empty(rest.as_str()) && !again {
            PromptAction::Type(rest)
        } else {
            PromptAction::Nothing
        }
    }

    /// Takes in a prompt that the templates could not read. `help` says whether there is outside help; it is
    /// asked for once for each prompt.
    pub fn unread(&mut self, hash: u64, help: bool) -> (a: PromptAction)
        ensures
            final(self)@ == (SessionView {
                idle_frames: 0,
                status: if help {
                    old(self)@.status
                } else {
                    "install Tesseract OCR to learn missing word: "@ + hex(hash as int, 16)
                },
                ..old(self)@
            }),
            a is AskForHelp <==> help && old(self)@.asked_hash != Some(hash),
            !(a is Type),
    {
        self.idle_frames = 0;
        if !help {
            self.status = with_hash("install Tesseract OCR to learn missing word: ", hash);
            return PromptAction::Nothing;
        }
        let again: bool = match self.asked_hash {
            Some(h) => h == hash,
            None => false,
        };
        if again {
            PromptAction::Nothing
        } else {
            PromptAction::AskForHelp
        }
    }

    /// The prompt was typed.
    pub fn typed(&mut self, hash: u64)
        ensures
            final(self)@ == (SessionView { typed_hash: Some(hash), ..old(self)@ }),
            forall|rest: Seq<char>, on: bool| !#[trigger] types(final(self)@, hash, rest, on),
            forall|other: u64, rest: Seq<char>|
                other != hash && rest.len() > 0 ==> #[trigger] types(final(self)@, other, rest, true),
    {
        self.typed_hash = Some(hash);
    }

    /// Outside help has been asked for the prompt.
    pub fn queued(&mut self, hash: u64)
        ensures
            final(self)@ == (SessionView {
                asked_hash: Some(hash),
                status: "OCR queued: hash="@ + hex(hash as int, 16),
                ..old(self)@
            }),
    {
        self.asked_hash = Some(hash);
        self.status = with_hash("OCR queued: hash=", hash);
    }

    /// There is no outside help any more.
    pub fn unavailable(&mut self)
        ensures
            final(self)@ == (SessionView { status: "OCR worker stopped"@, ..old(self)@ }),
    {
        self.status = text::copy("OCR worker stopped");
    }

    /// Takes in a frame without a prompt. After three of them in a row the last prompt is forgotten.
    pub fn no_prompt(&mut self)
        ensures
            ({
                let idle = if old(self)@.idle_frames < u32::MAX {
                    old(self)@.idle_frames + 1
                } else {
                    old(self)@.idle_frames
                };
                final(self)@ == if idle >= FORGET_AFTER {
                    SessionView { idle_frames: idle, typed_hash: None, asked_hash: None, status: Seq::empty() }
                } else {
                    SessionView { idle_frames: idle, ..old(self)@ }
                }
            }),
            final(self)@ == idled(old(self)@),
    {
        if self.idle_frames < u32::MAX {
            self.idle_frames = self.idle_frames + 1;
        }
        if self.idle_frames >= FORGET_AFTER {
            self.typed_hash = None;
            self.asked_hash = None;
            self.status = String::new();
            assert(self.status@ =~= Seq::empty());
        }
    }

    /// Takes in a word that outside help has read in the picture of the prompt with this hash: the templates
    /// learn it, and it is typed where that prompt is still on the screen and was not typed yet. `millis` is
    /// the time it took in milliseconds with one decimal.
    pub fn helped(
        &mut self,
        db: &mut TemplateDb,
        image: &TextImage,
        word: &str,
        hash: u64,
        on_screen: Option<u64>,
        millis: &str,
        type_words: bool,
    ) -> (a: PromptAction)
        requires
            image@.wf(),
            templates::db_wf(old(db)@),
            word@.len() > 0,
        ensures
            final(db)@ == templates::trained(old(db)@, image@, word@),
            templates::db_wf(final(db)@),
            ({
                let index = match glyphs::nearest_glyph(image@.center, glyphs::glyphs_of(image@)) {
                    Some(i) => i,
                    None => 0,
                };
                let rest = rest_of(word@, index);
                &&& final(self)@ == (SessionView {
                    status: ocr_status(word@, index, millis@, (final(db)@.len() - old(db)@.len()) as nat),
                    ..old(self)@
                })
                &&& a is Type <==> types(old(self)@, hash, rest, type_words) && on_screen == Some(hash)
                &&& a matches PromptAction::Type(t) ==> t@ == rest
            }),
            !(a is AskForHelp),
    {
        let added: usize = db.train_word(image, word);
        let letters = glyphs::segment_glyphs(image);
        let index: usize = match glyphs::current_glyph_index(image, &letters) {
            Some(i) => i,
            None => 0,
        };
        let rest = glyphs::suffix_from(word, index);
        let mut status = text::copy("OCR: ");
        status.append(word);
        status.append(" CURRENT=");
        status.push(char_at(word, index));
        status.append(" TYPE=");
        status.append(rest.as_str());
        status.push(' ');
        status.append(millis);
        status.append("ms learned +");
        text::push_nat(&mut status, added as u64);
        assert(status@ =~= ocr_status(word@, index as int, millis@, added as nat));
        self.status = status;
        let again: bool = match self.typed_hash {
            Some(h) => h == hash,
            None => false,
        };
        let shown: bool = match on_screen {
            Some(h) => h == hash,
            None => false,
        };
        if type_words && shown && !again && !is_empty(rest.as_str()) {
            PromptAction::Type(rest)
        } else {
            PromptAction::Nothing
        }
    }

    /// Outside help has read nothing; only shown while debugging. `millis` is the time it took in milliseconds
    /// with one decimal.
    pub fn read_nothing(&mut self, millis: &str, debug: bool)
        ensures
            final(self)@ == (SessionView {
                status: if debug {
                    "OCR: nothing recognized ("@ + millis@ + " ms)"@
                } else {
                    old(self)@.status
                },
                ..old(self)@
            }),
    {
        if debug {
            let mut status = text::copy("OCR: nothing recognized (");
            status.append(millis);
            status.append(" ms)");
            self.status = status;
        }
    }

    /// Outside help has failed.
    pub fn help_failed(&mut self, error: &str)
        ensures
            final(self)@ == (SessionView { status: "OCR error: "@ + error@, ..old(self)@ }),
    {
        let mut status = text::copy("OCR error: ");
        status.append(error);
        self.status = status;
    }

    /// The lines that the overlay shows: the prompt, the number of prompts and pictures, the letters that are
    /// known and the status.
    pub fn overlay_lines(&self, on_screen: Option<u64>, prompts: usize, images: usize, db: &TemplateDb) -> (lines: Vec<
        String,
    >)
        ensures
            text::values(lines@) == shown(self@, on_screen, prompts as nat, images as nat, db@),
    {
        let mut lines: Vec<String> = Vec::new();
        match on_screen {
            Some(h) => {
                lines.push(with_hash("prompt: hash=", h));
            },
            None => {
                lines.push(text::copy("prompt: none"));
            },
        }
        let mut counts = text::copy("candidates: ");
        text::push_nat(&mut counts, prompts as u64);
        counts.push('/');
        text::push_nat(&mut counts, images as u64);
        assert(counts@ =~= "candidates: "@ + text::digits(prompts as nat) + seq!['/'] + text::digits(images as nat));
        lines.push(counts);
        let mut known = text::copy("templates: ");
        let letters = db.known_letters();
        known.append(letters.as_str());
        lines.push(known);
        if is_empty(self.status.as_str()) {
            lines.push(text::copy("status: scanning"));
        } else {
            lines.push(text::copy(self.status.as_str()));
        }
        assert(text::values(lines@) =~= shown(self@, on_screen, prompts as nat, images as nat, db@));
        lines
    }
}

/// The lines that the overlay shows.
pub open spec fn shown(
    s: SessionView,
    on_screen: Option<u64>,
    prompts: nat,
    images: nat,
    db: Seq<templates::TemplateView>,
) -> Seq<Seq<char>> {
    seq![
        match on_screen {
            Some(h) => "prompt: hash="@ + hex(h as int, 16),
            None => "prompt: none"@,
        },
        "candidates: "@ + text::digits(prompts) + seq!['/'] + text::digits(images),
        "templates: "@ + templates::letters_before(db, 26),
        if s.status.len() == 0 {
            "status: scanning"@
        } else {
            s.status
        },
    ]
}

/// A prompt that was typed is not typed again, whatever is read of it, until it is forgotten or another one is
/// typed.
pub proof fn lemma_typed_once(s: SessionView, hash: u64, rest: Seq<char>, type_words: bool)
    requires
        s.typed_hash == Some(hash),
    ensures
        !types(s, hash, rest, type_words),
{
}

/// What the tool remembers after a frame without a prompt.
pub open spec fn idled(s: SessionView) -> SessionView {
    let idle = if s.idle_frames < u32::MAX {
        s.idle_frames + 1
    } else {
        s.idle_frames
    };
    if idle >= FORGET_AFTER {
        SessionView { idle_frames: idle, typed_hash: None, asked_hash: None, status: Seq::empty() }
    } else {
        SessionView { idle_frames: idle, ..s }
    }
}

/// After a prompt, one or two frames without one change nothing of what is remembered of it; the third makes the tool
/// forget it, and it stays forgotten.
pub proof fn lemma_forgets(s: SessionView)
    requires
        s.idle_frames == 0,
    ensures
        ({
            let one = idled(s);
            let two = idled(one);
            let three = idled(two);
            let four = idled(three);
            &&& one.typed_hash == s.typed_hash && one.asked_hash == s.asked_hash && one.status == s.status
            &&& two.typed_hash == s.typed_hash && two.asked_hash == s.asked_hash && two.status == s.status
            &&& three.typed_hash is None && three.asked_hash is None && three.status.len() == 0
            &&& four.typed_hash is None && four.asked_hash is None && four.status.len() == 0
        }),
{
}

/// A prompt that is not the one typed last is typed where typing is on and its letter to type next is one of its
/// letters. What is typed is the word from that letter on: with the letters before it, it is the word again.
pub proof fn lemma_new_prompt_typed(s: SessionView, hash: u64, word: Seq<char>, index: int)
    requires
        s.typed_hash != Some(hash),
        0 <= index <= word.len(),
    ensures
        word.take(index) + rest_of(word, index) == word,
        index < word.len() ==> types(s, hash, rest_of(word, index), true) && rest_of(word, index)[0] == letter_at(word, index),
        index == word.len() ==> !types(s, hash, rest_of(word, index), true) && letter_at(word, index) == '?',
        !types(s, hash, rest_of(word, index), false),
{
    assert(word.take(index) + rest_of(word, index) =~= word);
}

/// A picture is a prompt exactly where it shows 16 to 100 rows and at least three columns for two rows of the frame,
/// with at least three letters.
pub proof fn lemma_is_prompt(image: extract::ImageView)
    ensures
        ({
            let cols = image.bounds.2 - image.bounds.0 + 1;
            let rows = image.bounds.3 - image.bounds.1 + 1;
            is_prompt(image) <==> 15 < rows < 101 && 2 * cols + 1 >= 3 * rows && glyphs::letter_boxes(image).len() > 2
        }),
{
}

/// Prompts are counted one by one, and of several that are largest the last one is taken.
pub proof fn lemma_prompts_counted(images: Seq<extract::ImageView>)
    ensures
        Set::new(|i: int| 0 <= i < images.len() && is_prompt(images[i])).finite(),
        Set::new(|i: int| 0 <= i < images.len() && is_prompt(images[i])).len() == prompt_count(images),
        largest_prompt(images) matches Some(m) ==> forall|i: int|
            m < i < images.len() && is_prompt(#[trigger] images[i]) ==> glyphs::shown_area(images[i]) < glyphs::shown_area(
                images[m],
            ),
    decreases images.len(),
{
    let all = Set::new(|i: int| 0 <= i < images.len() && is_prompt(images[i]));
    if images.len() == 0 {
        assert(all =~= Set::empty());
    } else {
        let t = images.drop_last();
        let here = images.len() - 1;
        lemma_prompts_counted(t);
        lemma_largest_prompt(t);
        assert forall|i: int| 0 <= i < t.len() implies t[i] == #[trigger] images[i] by {}
        let before = Set::new(|i: int| 0 <= i < t.len() && is_prompt(t[i]));
        if is_prompt(images.last()) {
            assert(all =~= before.insert(here));
        } else {
            assert(all =~= before);
        }
    }
}

proof fn lemma_hex_digit(a: int, b: int)
    requires
        0 <= a < 16,
        0 <= b < 16,
        hex_digit(a) == hex_digit(b),
    ensures
        a == b,
{
}

/// A hash can be told from its sixteen digits: two that differ are written differently.
pub proof fn lemma_hex_tells_apart(a: int, b: int, n: nat)
    requires
        0 <= a < vstd::arithmetic::power::pow(16, n),
        0 <= b < vstd::arithmetic::power::pow(16, n),
        a != b,
    ensures
        hex(a, n) != hex(b, n),
        hex(a, n).len() == n,
        hex(b, n).len() == n,
    decreases n,
{
    vstd::arithmetic::power::lemma_pow0(16);
    lemma_hex_len(a, n);
    lemma_hex_len(b, n);
    if n > 0 {
        let m = (n - 1) as nat;
        let p = vstd::arithmetic::power::pow(16, m);
        reveal(vstd::arithmetic::power::pow);
        assert(vstd::arithmetic::power::pow(16, n) == 16 * p);
        let x = hex(a / 16, m);
        let y = hex(b / 16, m);
        lemma_hex_len(a / 16, m);
        lemma_hex_len(b / 16, m);
        if hex(a, n) == hex(b, n) {
            assert(hex(a, n).last() == hex_digit(a % 16));
            assert(hex(b, n).last() == hex_digit(b % 16));
            lemma_hex_digit(a % 16, b % 16);
            assert(hex(a, n).drop_last() =~= x);
            assert(hex(b, n).drop_last() =~= y);
            if a / 16 != b / 16 {
                lemma_hex_tells_apart(a / 16, b / 16, m);
            }
        }
    }
}

proof fn lemma_hex_len(v: int, n: nat)
    ensures
        hex(v, n).len() == n,
    decreases n,
{
    if n > 0 {
        lemma_hex_len(v / 16, (n - 1) as nat);
    }
}

/// The status of a word shows the word, the letter to type next and what is still to be typed, which is the end of the
/// word from that letter on.
pub proof fn lemma_status_shows(word: Seq<char>, index: int, score: Seq<char>, micros: nat, added: nat)
    requires
        0 <= index < word.len(),
    ensures
        ({
            let s = fast_status(word, index, score, micros);
            let n = word.len() as int;
            &&& s.subrange(6, 6 + n) == word
            &&& s[17 + n] == word[index]
            &&& s.subrange(26 + n, 26 + n + (n - index)) == word.skip(index)
            &&& s.subrange(35 + n + (n - index), 35 + n + (n - index) + score.len()) == score
        }),
        ({
            let s = ocr_status(word, index, score, added);
            let n = word.len() as int;
            &&& s.subrange(5, 5 + n) == word
            &&& s[14 + n] == word[index]
            &&& s.subrange(21 + n, 21 + n + (n - index)) == word.skip(index)
            &&& s.subrange(22 + n + (n - index), 22 + n + (n - index) + score.len()) == score
        }),
{
    reveal_strlit("FAST: ");
    reveal_strlit(" | CURRENT=");
    reveal_strlit(" | TYPE=");
    reveal_strlit(" | score=");
    reveal_strlit("OCR: ");
    reveal_strlit(" CURRENT=");
    reveal_strlit(" TYPE=");
    let n = word.len() as int;
    let s = fast_status(word, index, score, micros);
    assert(s.subrange(6, 6 + n) =~= word);
    assert(s.subrange(26 + n, 26 + n + (n - index)) =~= word.skip(index));
    assert(s.subrange(35 + n + (n - index), 35 + n + (n - index) + score.len()) =~= score);
    let t = ocr_status(word, index, score, added);
    assert(t.subrange(5, 5 + n) =~= word);
    assert(t.subrange(21 + n, 21 + n + (n - index)) =~= word.skip(index));
    assert(t.subrange(22 + n + (n - index), 22 + n + (n - index) + score.len()) =~= score);
}

/// The overlay has four lines of the tool, the last of which is its status.
pub proof fn lemma_shown(
    s: SessionView,
    on_screen: Option<u64>,
    prompts: nat,
    images: nat,
    db: Seq<templates::TemplateView>,
)
    ensures
        shown(s, on_screen, prompts, images, db).len() == 4,
        s.status.len() > 0 ==> shown(s, on_screen, prompts, images, db)[3] == s.status,
        s.status.len() == 0 ==> shown(s, on_screen, prompts, images, db)[3] == "status: scanning"@,
        on_screen is None ==> shown(s, on_screen, prompts, images, db)[0] == "prompt: none"@,
{
}

} // verus!
