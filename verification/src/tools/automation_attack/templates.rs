//! The letters that have been learned, and reading words with them.

use crate::single;
use crate::text;
use crate::tools::automation_attack::extract;
use crate::tools::automation_attack::extract::TextImage;
use crate::tools::automation_attack::glyphs;
use crate::tools::automation_attack::glyphs::Glyph;
use vstd::prelude::*;
use vstd::string::*;

verus! {

/// 0.995 in single precision, in units of 2^-52: more similar than this is the same template.
pub const SAME_TEMPLATE: u128 = 4481081650708480;

/// 0.975 in single precision, in units of 2^-52: more similar than this need not be learned.
pub const WELL_KNOWN: u128 = 4391009744060416;

/// 0.70 in single precision, in units of 2^-52: less similar than this is not recognized.
pub const WEAK: u128 = 3152519685472256;

/// 0.88 in single precision, in units of 2^-52: from here on no margin is asked for.
pub const STRONG: u128 = 3963167650611200;

/// 0.035 in single precision, in units of 2^-52: the margin over the second best letter.
pub const MARGIN: u128 = 157625987629056;

/// A learned picture of one letter.
pub struct GlyphTemplate {
    pub ch: char,
    pub bits: Vec<u8>,
}

/// What a template holds.
pub struct TemplateView {
    pub ch: char,
    pub bits: Seq<u8>,
}

impl View for GlyphTemplate {
    type V = TemplateView;

    open spec fn view(&self) -> TemplateView {
        TemplateView { ch: self.ch, bits: self.bits@ }
    }
}

/// The templates, in the order in which they were learned.
pub struct TemplateDb {
    pub items: Vec<GlyphTemplate>,
}

impl View for TemplateDb {
    type V = Seq<TemplateView>;

    open spec fn view(&self) -> Seq<TemplateView> {
        self.items@.map_values(|t: GlyphTemplate| t@)
    }
}

/// Every template is of a capital letter and has the size of a template.
pub open spec fn db_wf(items: Seq<TemplateView>) -> bool {
    forall|i: int|
        0 <= i < items.len() ==> 'A' <= (#[trigger] items[i]).ch && items[i].ch <= 'Z' && items[i].bits.len()
            == glyphs::TEMPLATE_LEN
}

/// The best similarity of `bits` to a template of letter `ch`; zero where there is none.
pub open spec fn letter_score(items: Seq<TemplateView>, bits: Seq<u8>, ch: char) -> nat
    decreases items.len(),
{
    if items.len() == 0 {
        0
    } else {
        let before = letter_score(items.drop_last(), bits, ch);
        let here = glyphs::similarity(bits, items.last().bits);
        if items.last().ch == ch && here > before {
            here
        } else {
            before
        }
    }
}

/// How many templates of letter `ch` there are.
pub open spec fn letter_count(items: Seq<TemplateView>, ch: char) -> nat
    decreases items.len(),
{
    if items.len() == 0 {
        0
    } else {
        letter_count(items.drop_last(), ch) + if items.last().ch == ch {
            1nat
        } else {
            0nat
        }
    }
}

/// A template of the same letter is nearly the same as `bits`.
pub open spec fn has_duplicate(items: Seq<TemplateView>, ch: char, bits: Seq<u8>) -> bool {
    exists|i: int|
        0 <= i < items.len() && (#[trigger] items[i]).ch == ch && glyphs::similarity(items[i].bits, bits)
            > SAME_TEMPLATE
}

/// The templates after one record of a template file: a letter byte and its bits.
pub open spec fn add_record(items: Seq<TemplateView>, byte: u8, bits: Seq<u8>) -> Seq<TemplateView> {
    if 65 <= byte <= 90 && !has_duplicate(items, byte as char, bits) {
        items.push(TemplateView { ch: byte as char, bits })
    } else {
        items
    }
}

/// The templates after `count` records from position `pos` on, or as many as there are.
pub open spec fn load_records(items: Seq<TemplateView>, bytes: Seq<u8>, pos: int, count: nat) -> Seq<TemplateView>
    decreases count,
{
    if count == 0 || pos + 1 + glyphs::TEMPLATE_LEN > bytes.len() {
        items
    } else {
        load_records(
            add_record(items, bytes[pos], bytes.subrange(pos + 1, pos + 1 + glyphs::TEMPLATE_LEN)),
            bytes,
            pos + 1 + glyphs::TEMPLATE_LEN,
            (count - 1) as nat,
        )
    }
}

/// A template file starts with the bytes `TPR1` and the number of records.
pub open spec fn blob_header(bytes: Seq<u8>) -> bool {
    bytes.len() >= 8 && bytes[0] == 84 && bytes[1] == 80 && bytes[2] == 82 && bytes[3] == 49
}

/// The number of records that a template file announces: four bytes, least significant first.
pub open spec fn blob_count(bytes: Seq<u8>) -> nat {
    (bytes[4] + 0x100 * bytes[5] + 0x1_0000 * bytes[6] + 0x100_0000 * bytes[7]) as nat
}

/// The templates after a template file has been loaded.
pub open spec fn loaded(items: Seq<TemplateView>, bytes: Seq<u8>) -> Seq<TemplateView> {
    if blob_header(bytes) {
        load_records(items, bytes, 8, blob_count(bytes))
    } else {
        items
    }
}

/// Loading keeps the templates that were there, in their places.
pub proof fn lemma_load_keeps(items: Seq<TemplateView>, bytes: Seq<u8>, pos: int, count: nat)
    ensures
        items.is_prefix_of(load_records(items, bytes, pos, count)),
        load_records(items, bytes, pos, count).len() <= items.len() + count,
    decreases count,
{
    if !(count == 0 || pos + 1 + glyphs::TEMPLATE_LEN > bytes.len()) {
        let next = add_record(items, bytes[pos], bytes.subrange(pos + 1, pos + 1 + glyphs::TEMPLATE_LEN));
        lemma_load_keeps(next, bytes, pos + 1 + glyphs::TEMPLATE_LEN, (count - 1) as nat);
        assert(items.is_prefix_of(next));
    }
}

/// A loaded file leaves no two nearly equal templates of a letter, where there were none before:
/// each template is not nearly the same as any earlier one of its letter.
pub open spec fn no_duplicates(items: Seq<TemplateView>) -> bool {
    forall|i: int, j: int|
        0 <= i < j < items.len() && (#[trigger] items[i]).ch == (#[trigger] items[j]).ch ==> glyphs::similarity(
            items[i].bits,
            items[j].bits,
        ) <= SAME_TEMPLATE
}

/// Loading a template file adds no template that is nearly the same as an earlier one.
pub proof fn lemma_load_no_duplicates(items: Seq<TemplateView>, bytes: Seq<u8>, pos: int, count: nat)
    requires
        no_duplicates(items),
    ensures
        no_duplicates(load_records(items, bytes, pos, count)),
    decreases count,
{
    if !(count == 0 || pos + 1 + glyphs::TEMPLATE_LEN > bytes.len()) {
        let bits = bytes.subrange(pos + 1, pos + 1 + glyphs::TEMPLATE_LEN);
        let next = add_record(items, bytes[pos], bits);
        assert forall|i: int, j: int|
            0 <= i < j < next.len() && (#[trigger] next[i]).ch == (#[trigger] next[j]).ch implies glyphs::similarity(
            next[i].bits,
            next[j].bits,
        ) <= SAME_TEMPLATE by {
            assert(next[i] == items[i]);
            if j < items.len() {
                assert(next[j] == items[j]);
            }
        }
        lemma_load_no_duplicates(next, bytes, pos + 1 + glyphs::TEMPLATE_LEN, (count - 1) as nat);
    }
}

/// None of the records from position `pos` on is blank.
pub open spec fn inked_records(bytes: Seq<u8>, pos: int, count: nat) -> bool
    decreases count,
{
    if count == 0 || pos + 1 + glyphs::TEMPLATE_LEN > bytes.len() {
        true
    } else {
        &&& glyphs::ink(bytes.subrange(pos + 1, pos + 1 + glyphs::TEMPLATE_LEN)) > 0
        &&& inked_records(bytes, pos + 1 + glyphs::TEMPLATE_LEN, (count - 1) as nat)
    }
}

/// Every record from position `pos` on that is of a letter has a template that is nearly the same.
spec fn covered(items: Seq<TemplateView>, bytes: Seq<u8>, pos: int, count: nat) -> bool
    decreases count,
{
    if count == 0 || pos + 1 + glyphs::TEMPLATE_LEN > bytes.len() {
        true
    } else {
        &&& 65 <= bytes[pos] <= 90 ==> has_duplicate(
            items,
            bytes[pos] as char,
            bytes.subrange(pos + 1, pos + 1 + glyphs::TEMPLATE_LEN),
        )
        &&& covered(items, bytes, pos + 1 + glyphs::TEMPLATE_LEN, (count - 1) as nat)
    }
}

proof fn lemma_loaded_covered(items: Seq<TemplateView>, bytes: Seq<u8>, pos: int, count: nat)
    requires
        0 <= pos,
        inked_records(bytes, pos, count),
    ensures
        covered(load_records(items, bytes, pos, count), bytes, pos, count),
    decreases count,
{
    if !(count == 0 || pos + 1 + glyphs::TEMPLATE_LEN > bytes.len()) {
        let ch = bytes[pos] as char;
        let bits = bytes.subrange(pos + 1, pos + 1 + glyphs::TEMPLATE_LEN);
        let next = add_record(items, bytes[pos], bits);
        let all = load_records(items, bytes, pos, count);
        lemma_loaded_covered(next, bytes, pos + 1 + glyphs::TEMPLATE_LEN, (count - 1) as nat);
        lemma_load_keeps(next, bytes, pos + 1 + glyphs::TEMPLATE_LEN, (count - 1) as nat);
        if 65 <= bytes[pos] <= 90 {
            if !has_duplicate(items, ch, bits) {
                glyphs::lemma_similarity_self(bits);
                assert(next[items.len() as int].ch == ch);
            }
            assert(has_duplicate(next, ch, bits));
            let i = choose|i: int|
                0 <= i < next.len() && (#[trigger] next[i]).ch == ch && glyphs::similarity(next[i].bits, bits)
                    > SAME_TEMPLATE;
            assert(all[i] == next[i]);
        }
    }
}

proof fn lemma_covered_adds_nothing(items: Seq<TemplateView>, bytes: Seq<u8>, pos: int, count: nat)
    requires
        covered(items, bytes, pos, count),
    ensures
        load_records(items, bytes, pos, count) == items,
    decreases count,
{
    if !(count == 0 || pos + 1 + glyphs::TEMPLATE_LEN > bytes.len()) {
        lemma_covered_adds_nothing(items, bytes, pos + 1 + glyphs::TEMPLATE_LEN, (count - 1) as nat);
    }
}

/// Loading a template file a second time adds nothing, where none of its records is blank.
pub proof fn lemma_load_twice(items: Seq<TemplateView>, bytes: Seq<u8>)
    requires
        blob_header(bytes) ==> inked_records(bytes, 8, blob_count(bytes)),
    ensures
        loaded(loaded(items, bytes), bytes) == loaded(items, bytes),
{
    if blob_header(bytes) {
        lemma_loaded_covered(items, bytes, 8, blob_count(bytes));
        lemma_covered_adds_nothing(loaded(items, bytes), bytes, 8, blob_count(bytes));
    }
}

/// The letters of the alphabet, before letter `n`, that have a template.
pub open spec fn letters_before(items: Seq<TemplateView>, n: int) -> Seq<char>
    decreases n,
{
    if n <= 0 {
        Seq::empty()
    } else {
        let ch = (64 + n) as char;
        let before = letters_before(items, n - 1);
        if exists|i: int| 0 <= i < items.len() && (#[trigger] items[i]).ch == ch {
            before.push(ch)
        } else {
            before
        }
    }
}

/// There is a template of letter `ch`.
pub open spec fn knows(items: Seq<TemplateView>, ch: char) -> bool {
    exists|i: int| 0 <= i < items.len() && (#[trigger] items[i]).ch == ch
}

/// The known letters are exactly those of the alphabet that have a template, in alphabetical order and each
/// once.
pub proof fn lemma_known_letters(items: Seq<TemplateView>, n: int)
    requires
        0 <= n <= 26,
    ensures
        forall|i: int|
            0 <= i < letters_before(items, n).len() ==> 65 <= (#[trigger] letters_before(items, n)[i]) as int
                && (letters_before(items, n)[i] as int) < 65 + n && knows(items, letters_before(items, n)[i]),
        forall|i: int, j: int|
            0 <= i < j < letters_before(items, n).len() ==> (#[trigger] letters_before(items, n)[i]) < (
            #[trigger] letters_before(items, n)[j]),
        forall|c: char|
            65 <= c as int && (c as int) < 65 + n && #[trigger] knows(items, c) ==> letters_before(items, n).contains(c),
    decreases n,
{
    if n > 0 {
        lemma_known_letters(items, n - 1);
        let ch = (64 + n) as char;
        let before = letters_before(items, n - 1);
        let all = letters_before(items, n);
        assert forall|c: char| 65 <= c as int && (c as int) < 65 + n && #[trigger] knows(items, c) implies all.contains(
            c,
        ) by {
            if c as int == 64 + n {
                assert(c == ch);
                assert(all == before.push(ch));
                assert(all[before.len() as int] == ch);
            } else {
                assert(before.contains(c));
                let i = before.index_of(c);
                assert(all[i] == c);
            }
        }
    }
}

/// The first position that holds the greatest value.
pub open spec fn first_greatest(s: Seq<nat>) -> int
    decreases s.len(),
{
    if s.len() <= 1 {
        0
    } else {
        let m = first_greatest(s.drop_last());
        if s.last() > s[m] {
            s.len() - 1
        } else {
            m
        }
    }
}

/// `first_greatest` is what its name says.
pub proof fn lemma_first_greatest(s: Seq<nat>)
    requires
        s.len() > 0,
    ensures
        0 <= first_greatest(s) < s.len(),
        forall|i: int| 0 <= i < s.len() ==> s[first_greatest(s)] >= #[trigger] s[i],
        forall|i: int| 0 <= i < first_greatest(s) ==> s[first_greatest(s)] > #[trigger] s[i],
    decreases s.len(),
{
    if s.len() > 1 {
        let t = s.drop_last();
        lemma_first_greatest(t);
        assert forall|i: int| 0 <= i < s.len() implies s[first_greatest(s)] >= #[trigger] s[i] by {
            if i < t.len() {
                assert(t[i] == s[i]);
            }
        }
        assert forall|i: int| 0 <= i < first_greatest(s) implies s[first_greatest(s)] > #[trigger] s[i] by {
            assert(t[i] == s[i]);
        }
    }
}

/// The greatest value.
pub open spec fn greatest(s: Seq<nat>) -> nat {
    s[first_greatest(s)]
}

/// The scores of the letters of the alphabet for `bits`.
pub open spec fn alphabet_scores(items: Seq<TemplateView>, bits: Seq<u8>) -> Seq<nat> {
    Seq::new(26, |c: int| letter_score(items, bits, (65 + c) as char))
}

/// The best letter stands out: it is similar enough and, unless it is very similar, clearly
/// better than the second best.
pub open spec fn stands_out(best: nat, second: nat) -> bool {
    best >= WEAK && (best >= STRONG || single::distance(best, second) >= MARGIN)
}

/// The letter that `bits` shows and its score, where one stands out.
pub open spec fn read_letter(items: Seq<TemplateView>, bits: Seq<u8>) -> Option<(char, nat)> {
    let scores = alphabet_scores(items, bits);
    let b = first_greatest(scores);
    if stands_out(scores[b], greatest(scores.remove(b))) {
        Some(((65 + b) as char, scores[b]))
    } else {
        None
    }
}

/// The word that the glyphs spell and the least of their scores, where every letter stands out.
pub open spec fn read_word(items: Seq<TemplateView>, gs: Seq<glyphs::GlyphView>) -> Option<(Seq<char>, nat)>
    decreases gs.len(),
{
    if gs.len() == 0 {
        Some((Seq::empty(), single::ONE as nat))
    } else {
        match (read_word(items, gs.drop_last()), read_letter(items, gs.last().bits)) {
            (Some((word, least)), Some((ch, score))) => Some(
                (
                    word.push(ch),
                    if score < least {
                        score
                    } else {
                        least
                    },
                ),
            ),
            _ => None,
        }
    }
}

/// A word that was read without outside help.
pub struct FastResult {
    pub word: String,
    pub current_index: usize,
    pub min_similarity: u128,
}

/// What the templates read in a picture: the word, the index of the next letter and the least
/// score. Words have 3 to 20 letters.
pub open spec fn recognized(items: Seq<TemplateView>, image: extract::ImageView) -> Option<(Seq<char>, int, nat)> {
    let gs = glyphs::glyphs_of(image);
    if gs.len() < 3 || gs.len() > 20 || items.len() == 0 {
        None
    } else {
        match (read_word(items, gs), glyphs::nearest_glyph(image.center, gs)) {
            (Some((word, least)), Some(index)) => Some((word, index, least)),
            _ => None,
        }
    }
}

/// The scores of letters are at most one.
proof fn lemma_letter_score(items: Seq<TemplateView>, bits: Seq<u8>, ch: char)
    requires
        bits.len() == glyphs::TEMPLATE_LEN,
    ensures
        letter_score(items, bits, ch) <= single::ONE,
        letter_score(items, bits, ch) > 0 ==> knows(items, ch),
    decreases items.len(),
{
    if items.len() > 0 {
        let before = items.drop_last();
        lemma_letter_score(before, bits, ch);
        glyphs::lemma_similarity_bounded(bits, items.last().bits);
        if knows(before, ch) {
            let i = choose|i: int| 0 <= i < before.len() && (#[trigger] before[i]).ch == ch;
            assert(items[i].ch == ch);
        }
        if items.last().ch == ch {
            assert(items[items.len() - 1].ch == ch);
        }
    }
}

/// A letter that is read has a template and a score from 0.70 to one.
proof fn lemma_read_letter(items: Seq<TemplateView>, bits: Seq<u8>)
    requires
        bits.len() == glyphs::TEMPLATE_LEN,
        read_letter(items, bits) is Some,
    ensures
        knows(items, (read_letter(items, bits)->0).0),
        WEAK <= (read_letter(items, bits)->0).1 <= single::ONE,
{
    let scores = alphabet_scores(items, bits);
    lemma_first_greatest(scores);
    let b = first_greatest(scores);
    let ch = (65 + b) as char;
    lemma_letter_score(items, bits, ch);
    assert(scores[b] == letter_score(items, bits, ch));
}

/// A word that is read has one known letter for each glyph, and a score from 0.70 to one.
proof fn lemma_read_word(items: Seq<TemplateView>, gs: Seq<glyphs::GlyphView>)
    requires
        forall|i: int| 0 <= i < gs.len() ==> (#[trigger] gs[i]).bits.len() == glyphs::TEMPLATE_LEN,
        read_word(items, gs) is Some,
    ensures
        (read_word(items, gs)->0).0.len() == gs.len(),
        forall|i: int| 0 <= i < gs.len() ==> knows(items, #[trigger] (read_word(items, gs)->0).0[i]),
        WEAK <= (read_word(items, gs)->0).1 <= single::ONE,
    decreases gs.len(),
{
    if gs.len() > 0 {
        assert forall|i: int| 0 <= i < gs.drop_last().len() implies (#[trigger] gs.drop_last()[i]).bits.len()
            == glyphs::TEMPLATE_LEN by {
            assert(gs.drop_last()[i] == gs[i]);
        }
        lemma_read_word(items, gs.drop_last());
        assert(gs[gs.len() - 1] == gs.last());
        lemma_read_letter(items, gs.last().bits);
    }
}

/// A word that is recognized has 3 to 20 letters, each of which has a template; its score is from 0.70 to one;
/// and the next letter is one of its letters, so that there is something left to type.
pub proof fn lemma_recognized(items: Seq<TemplateView>, image: extract::ImageView)
    requires
        recognized(items, image) is Some,
    ensures
        ({
            let (word, index, least) = recognized(items, image)->0;
            &&& word.len() == glyphs::glyphs_of(image).len()
            &&& 3 <= word.len() <= 20
            &&& forall|i: int| 0 <= i < word.len() ==> knows(items, #[trigger] word[i])
            &&& 0 <= index < word.len()
            &&& WEAK <= least <= single::ONE
        }),
{
    let gs = glyphs::glyphs_of(image);
    assert forall|i: int| 0 <= i < gs.len() implies (#[trigger] gs[i]).bits.len() == glyphs::TEMPLATE_LEN by {
        glyphs::lemma_glyph_size(image, i);
    }
    lemma_read_word(items, gs);
    glyphs::lemma_nearest_glyph(image.center, gs);
}

/// A letter scores by the best of its templates, wherever that stands: none of them is more similar than the
/// score, and one is as similar where the score is not zero. Templates of other letters do not count.
pub proof fn lemma_score_is_best(items: Seq<TemplateView>, bits: Seq<u8>, ch: char)
    ensures
        forall|i: int|
            0 <= i < items.len() && (#[trigger] items[i]).ch == ch ==> glyphs::similarity(bits, items[i].bits)
                <= letter_score(items, bits, ch),
        letter_score(items, bits, ch) > 0 ==> exists|i: int|
            0 <= i < items.len() && (#[trigger] items[i]).ch == ch && glyphs::similarity(bits, items[i].bits)
                == letter_score(items, bits, ch),
    decreases items.len(),
{
    if items.len() > 0 {
        let t = items.drop_last();
        let n = items.len() - 1;
        lemma_score_is_best(t, bits, ch);
        assert forall|i: int| 0 <= i < items.len() && (#[trigger] items[i]).ch == ch implies glyphs::similarity(
            bits,
            items[i].bits,
        ) <= letter_score(items, bits, ch) by {
            if i < n {
                assert(t[i] == items[i]);
            }
        }
        if letter_score(items, bits, ch) > 0 {
            if letter_score(items, bits, ch) == letter_score(t, bits, ch) {
                let i = choose|i: int|
                    0 <= i < t.len() && (#[trigger] t[i]).ch == ch && glyphs::similarity(bits, t[i].bits) == letter_score(
                        t,
                        bits,
                        ch,
                    );
                assert(items[i] == t[i]);
            } else {
                assert(items[n].ch == ch);
            }
        }
    }
}

/// One more template lowers no score, and leaves the scores of the other letters as they are.
pub proof fn lemma_score_grows(items: Seq<TemplateView>, more: TemplateView, bits: Seq<u8>, ch: char)
    ensures
        letter_score(items.push(more), bits, ch) >= letter_score(items, bits, ch),
        more.ch != ch ==> letter_score(items.push(more), bits, ch) == letter_score(items, bits, ch),
{
    assert(items.push(more).drop_last() =~= items);
}

/// The very picture of a template gives its letter the score one.
pub proof fn lemma_score_of_template(items: Seq<TemplateView>, i: int)
    requires
        0 <= i < items.len(),
        items[i].bits.len() == glyphs::TEMPLATE_LEN,
        glyphs::set_places(items[i].bits).len() > 0,
    ensures
        letter_score(items, items[i].bits, items[i].ch) == single::ONE,
{
    let bits = items[i].bits;
    glyphs::lemma_similarity_of_places(bits, bits);
    lemma_score_is_best(items, bits, items[i].ch);
    lemma_letter_score(items, bits, items[i].ch);
}

proof fn lemma_second(scores: Seq<nat>, b: int, c: int)
    requires
        scores.len() == 26,
        b == first_greatest(scores),
        0 <= c < 26,
        c != b,
    ensures
        scores[c] <= greatest(scores.remove(b)),
        exists|d: int| 0 <= d < 26 && d != b && #[trigger] scores[d] == greatest(scores.remove(b)),
        0 <= b < 26,
{
    lemma_first_greatest(scores);
    let rest = scores.remove(b);
    lemma_first_greatest(rest);
    let k = if c < b {
        c
    } else {
        c - 1
    };
    assert(rest[k] == scores[c]);
    let m = first_greatest(rest);
    let d = if m < b {
        m
    } else {
        m + 1
    };
    assert(scores[d] == rest[m]);
}

/// A letter that is read is the one with the most similar template: no template of the alphabet is more similar
/// to the picture than the score, one of the letter's own is as similar, and it is at least 0.70 similar. Where
/// it is less than 0.88 similar, every template of another letter is at least 0.034 less similar.
pub proof fn lemma_read_most_similar(items: Seq<TemplateView>, bits: Seq<u8>, i: int)
    requires
        db_wf(items),
        bits.len() == glyphs::TEMPLATE_LEN,
        0 <= i < items.len(),
        read_letter(items, bits) is Some,
    ensures
        ({
            let (ch, score) = read_letter(items, bits)->0;
            let here = glyphs::similarity(bits, items[i].bits);
            &&& here <= score
            &&& exists|k: int|
                0 <= k < items.len() && (#[trigger] items[k]).ch == ch && glyphs::similarity(bits, items[k].bits) == score
            &&& 10 * score >= 7 * single::ONE - 10_000_000_000
            &&& 10_000 * score < 8_799 * single::ONE && items[i].ch != ch ==> 1000 * (score - here) >= 34 * single::ONE
        }),
{
    let scores = alphabet_scores(items, bits);
    let b = first_greatest(scores);
    lemma_first_greatest(scores);
    let (ch, score) = read_letter(items, bits)->0;
    lemma_score_is_best(items, bits, ch);
    assert(scores[b] == letter_score(items, bits, ch));
    let other = items[i].ch;
    let c = other as int - 65;
    assert((65 + c) as char == other);
    assert(scores[c] == letter_score(items, bits, other));
    lemma_score_is_best(items, bits, other);
    assert(ch == (65 + b) as char && score == scores[b]);
    assert(score > 0);
    if other != ch {
        assert(c != b);
        lemma_second(scores, b, c);
        let second = greatest(scores.remove(b));
        let d = choose|d: int| 0 <= d < 26 && d != b && #[trigger] scores[d] == second;
        assert(second <= score);
        single::lemma_nearest_size((score - second) as nat);
    }
}

/// A letter is read where it should be: one of its templates is at least 0.88 similar to the picture and more
/// similar than every template of another letter, or at least 0.71 similar and 0.036 more similar than those.
pub proof fn lemma_clear_letter_read(items: Seq<TemplateView>, bits: Seq<u8>, k: int)
    requires
        db_wf(items),
        bits.len() == glyphs::TEMPLATE_LEN,
        0 <= k < items.len(),
        ({
            let best = glyphs::similarity(bits, items[k].bits);
            ||| 10_000 * best >= 8_801 * single::ONE && forall|j: int|
                0 <= j < items.len() && (#[trigger] items[j]).ch != items[k].ch ==> glyphs::similarity(
                    bits,
                    items[j].bits,
                ) < best
            ||| 100 * best >= 71 * single::ONE && forall|j: int|
                0 <= j < items.len() && (#[trigger] items[j]).ch != items[k].ch ==> 1000 * (best - glyphs::similarity(
                    bits,
                    items[j].bits,
                )) >= 36 * single::ONE
        }),
    ensures
        read_letter(items, bits) is Some,
        (read_letter(items, bits)->0).0 == items[k].ch,
        (read_letter(items, bits)->0).1 >= glyphs::similarity(bits, items[k].bits),
{
    let scores = alphabet_scores(items, bits);
    let b = first_greatest(scores);
    lemma_first_greatest(scores);
    let best = glyphs::similarity(bits, items[k].bits);
    let ch = items[k].ch;
    let a = ch as int - 65;
    assert((65 + a) as char == ch);
    assert(scores[a] == letter_score(items, bits, ch));
    lemma_score_is_best(items, bits, ch);
    assert forall|c: int| 0 <= c < 26 && c != a implies #[trigger] scores[c] < best by {
        let other = (65 + c) as char;
        assert(scores[c] == letter_score(items, bits, other));
        lemma_score_is_best(items, bits, other);
        if scores[c] > 0 {
            let j = choose|j: int|
                0 <= j < items.len() && (#[trigger] items[j]).ch == other && glyphs::similarity(bits, items[j].bits)
                    == letter_score(items, bits, other);
            assert(items[j].ch != ch);
        }
    }
    assert(b == a);
    let c = if b == 0 {
        1int
    } else {
        0int
    };
    lemma_second(scores, b, c);
    let second = greatest(scores.remove(b));
    let d = choose|d: int| 0 <= d < 26 && d != b && #[trigger] scores[d] == second;
    assert(second < best);
    let other = (65 + d) as char;
    assert(scores[d] == letter_score(items, bits, other));
    lemma_score_is_best(items, bits, other);
    if second > 0 {
        let j = choose|j: int|
            0 <= j < items.len() && (#[trigger] items[j]).ch == other && glyphs::similarity(bits, items[j].bits)
                == letter_score(items, bits, other);
        assert(items[j].ch != ch);
    }
    let gap = (scores[b] - second) as nat;
    if !(scores[b] >= STRONG) {
        let least = 36 * 4503599627370496nat / 1000;
        assert(gap >= least);
        single::lemma_nearest_order(least, gap, 1);
        single::lemma_nearest_error(least, 1);
        assert(least / 1 == least);
        single::lemma_grain_positive(least);
    }
}

/// Each letter of a word that is read is the letter read of its own glyph, in order; the word's score is the least
/// of theirs. No word is read where one of the letters is not.
pub proof fn lemma_word_letters(items: Seq<TemplateView>, gs: Seq<glyphs::GlyphView>)
    ensures
        read_word(items, gs) is Some <==> forall|i: int|
            0 <= i < gs.len() ==> read_letter(items, (#[trigger] gs[i]).bits) is Some,
        read_word(items, gs) matches Some((word, least)) ==> {
            &&& word.len() == gs.len()
            &&& forall|i: int|
                0 <= i < gs.len() ==> (read_letter(items, (#[trigger] gs[i]).bits)->0).0 == word[i] && least <= (
                read_letter(items, gs[i].bits)->0).1
            &&& least == single::ONE || exists|i: int|
                0 <= i < gs.len() && (read_letter(items, (#[trigger] gs[i]).bits)->0).1 == least
        },
    decreases gs.len(),
{
    if gs.len() > 0 {
        let t = gs.drop_last();
        let n = gs.len() - 1;
        lemma_word_letters(items, t);
        assert forall|i: int| 0 <= i < n implies t[i] == #[trigger] gs[i] by {}
        assert(gs[n] == gs.last());
        if read_word(items, gs) is Some {
            let least = (read_word(items, gs)->0).1;
            let before = (read_word(items, t)->0).1;
            if least == before && before != single::ONE {
                let i = choose|i: int| 0 <= i < t.len() && (read_letter(items, (#[trigger] t[i]).bits)->0).1 == before;
                assert(gs[i] == t[i]);
            } else if least != before {
                assert((read_letter(items, gs[n].bits)->0).1 == least);
            }
        }
        if forall|i: int| 0 <= i < gs.len() ==> read_letter(items, (#[trigger] gs[i]).bits) is Some {
            assert(read_letter(items, gs[n].bits) is Some);
            assert forall|i: int| 0 <= i < t.len() implies read_letter(items, (#[trigger] t[i]).bits) is Some by {
                assert(t[i] == gs[i]);
            }
        }
    }
}

/// What is known is read: where each of 3 to 20 letters of a picture is the very picture of a template, and no
/// template of another letter looks the same, the word of those templates is recognized, with the score one.
/// Other templates, of these letters or of others, before or behind, change nothing.
pub proof fn lemma_known_word_read(items: Seq<TemplateView>, image: extract::ImageView, word: Seq<char>)
    requires
        db_wf(items),
        3 <= glyphs::glyphs_of(image).len() <= 20,
        word.len() == glyphs::glyphs_of(image).len(),
        forall|i: int|
            0 <= i < word.len() ==> {
                let bits = (#[trigger] glyphs::glyphs_of(image)[i]).bits;
                &&& glyphs::set_places(bits).len() > 0
                &&& exists|k: int| 0 <= k < items.len() && (#[trigger] items[k]).ch == word[i] && items[k].bits == bits
                &&& forall|k: int|
                    0 <= k < items.len() && (#[trigger] items[k]).ch != word[i] ==> glyphs::set_places(items[k].bits)
                        != glyphs::set_places(bits)
            },
    ensures
        recognized(items, image) is Some,
        (recognized(items, image)->0).0 == word,
        (recognized(items, image)->0).2 == single::ONE,
{
    let gs = glyphs::glyphs_of(image);
    assert forall|i: int| 0 <= i < gs.len() implies read_letter(items, (#[trigger] gs[i]).bits) == Some(
        (word[i], single::ONE as nat),
    ) by {
        let bits = gs[i].bits;
        glyphs::lemma_glyph_size(image, i);
        let k = choose|k: int| 0 <= k < items.len() && (#[trigger] items[k]).ch == word[i] && items[k].bits == bits;
        glyphs::lemma_similarity_of_places(bits, bits);
        assert forall|j: int| 0 <= j < items.len() && (#[trigger] items[j]).ch != items[k].ch implies glyphs::similarity(
            bits,
            items[j].bits,
        ) < glyphs::similarity(bits, items[k].bits) by {
            glyphs::lemma_similarity_of_places(bits, items[j].bits);
            glyphs::lemma_similarity_bounded(bits, items[j].bits);
        }
        lemma_clear_letter_read(items, bits, k);
        lemma_read_letter(items, bits);
    }
    lemma_word_letters(items, gs);
    let (w, least) = read_word(items, gs)->0;
    assert forall|i: int| 0 <= i < w.len() implies w[i] == word[i] by {
        assert(read_letter(items, gs[i].bits) is Some);
    }
    assert(w =~= word);
    if least != single::ONE {
        let i = choose|i: int| 0 <= i < gs.len() && (read_letter(items, (#[trigger] gs[i]).bits)->0).1 == least;
        assert(read_letter(items, gs[i].bits) == Some((word[i], single::ONE as nat)));
    }
    glyphs::lemma_nearest_glyph(image.center, gs);
    assert(items.len() > 0) by {
        let bits = gs[0].bits;
        assert(exists|k: int| 0 <= k < items.len() && (#[trigger] items[k]).ch == word[0] && items[k].bits == bits);
    }
}

/// The number of templates of a letter is the number of their places.
pub proof fn lemma_letter_count(items: Seq<TemplateView>, ch: char)
    ensures
        Set::new(|i: int| 0 <= i < items.len() && items[i].ch == ch).finite(),
        letter_count(items, ch) == Set::new(|i: int| 0 <= i < items.len() && items[i].ch == ch).len(),
    decreases items.len(),
{
    let s = Set::new(|i: int| 0 <= i < items.len() && items[i].ch == ch);
    if items.len() == 0 {
        assert(s =~= Set::empty());
    } else {
        let t = items.drop_last();
        lemma_letter_count(t, ch);
        let before = Set::new(|i: int| 0 <= i < t.len() && t[i].ch == ch);
        if items.last().ch == ch {
            assert(s =~= before.insert(items.len() - 1));
            assert(!before.contains(items.len() - 1));
        } else {
            assert(s =~= before);
        }
    }
}

/// The letter to type next of a word that was read is one of its letters: the first whose columns hold the middle of the
/// current letter, where there is one, and otherwise one with no nearer letter on either side.
pub proof fn lemma_recognized_index(items: Seq<TemplateView>, image: extract::ImageView)
    requires
        recognized(items, image) is Some,
        -0x40_0000 <= image.center <= 0x40_0000,
        forall|i: int|
            0 <= i < glyphs::glyphs_of(image).len() ==> 0 <= (#[trigger] glyphs::glyphs_of(image)[i]).x0
                <= glyphs::glyphs_of(image)[i].x1 < 0x40_0000,
    ensures
        ({
            let (word, index, least) = recognized(items, image)->0;
            let gs = glyphs::glyphs_of(image);
            let x = image.center;
            &&& 3 <= gs.len() <= 20
            &&& word.len() == gs.len()
            &&& 0 <= index < word.len()
            &&& forall|i: int|
                0 <= i < gs.len() && (#[trigger] gs[i]).x0 <= x <= gs[i].x1 ==> index <= i && gs[index].x0 <= x <= gs[index].x1
            &&& forall|i: int|
                #![trigger gs[i]]
                0 <= i < gs.len() ==> {
                    ||| gs[index].x0 <= x <= gs[index].x1
                    ||| x < gs[index].x0 && (x < gs[i].x0 ==> gs[index].x0 <= gs[i].x0) && (x > gs[i].x1 ==> gs[index].x0 - x <= x
                        - gs[i].x1)
                    ||| x > gs[index].x1 && (x > gs[i].x1 ==> gs[index].x1 >= gs[i].x1) && (x < gs[i].x0 ==> x - gs[index].x1
                        <= gs[i].x0 - x)
                }
        }),
{
    let (word, index, least) = recognized(items, image)->0;
    let gs = glyphs::glyphs_of(image);
    lemma_word_letters(items, gs);
    glyphs::lemma_nearest_glyph_columns(image.center, gs, index);
}

/// Record `k` of a template file holds this template.
pub open spec fn record_holds(bytes: Seq<u8>, k: int, t: TemplateView) -> bool {
    let at = 8 + 1281 * k;
    at + 1281 <= bytes.len() && bytes[at] as int == t.ch as int && bytes.subrange(at + 1, at + 1281) == t.bits
}

/// A template file gives back the templates that stand in it: behind the bytes `TPR1` and their number, least
/// significant byte first, a byte for the letter and its 1280 bits of each, where no two of a letter are nearly
/// the same. What follows the last one is not looked at.
pub proof fn lemma_file_read_back(bytes: Seq<u8>, items: Seq<TemplateView>)
    requires
        db_wf(items),
        no_duplicates(items),
        bytes.len() >= 8,
        bytes.take(4) == seq![84u8, 80u8, 82u8, 49u8],
        bytes[4] + 0x100 * bytes[5] + 0x1_0000 * bytes[6] + 0x100_0000 * bytes[7] == items.len(),
        forall|k: int| 0 <= k < items.len() ==> record_holds(bytes, k, #[trigger] items[k]),
    ensures
        loaded(Seq::empty(), bytes) == items,
{
    let head = bytes.take(4);
    assert(head[0] == 84 && head[1] == 80 && head[2] == 82 && head[3] == 49);
    assert(items.take(0) =~= Seq::empty());
    lemma_records_read_back(bytes, items, 0);
}

proof fn lemma_records_read_back(bytes: Seq<u8>, items: Seq<TemplateView>, k: int)
    requires
        db_wf(items),
        no_duplicates(items),
        0 <= k <= items.len(),
        forall|j: int| 0 <= j < items.len() ==> record_holds(bytes, j, #[trigger] items[j]),
    ensures
        load_records(items.take(k), bytes, 8 + 1281 * k, (items.len() - k) as nat) == items,
    decreases items.len() - k,
{
    if k == items.len() {
        assert(items.take(k) =~= items);
    } else {
        let t = items[k];
        let before = items.take(k);
        let pos = 8 + 1281 * k;
        assert(record_holds(bytes, k, t));
        assert('A' <= t.ch && t.ch <= 'Z');
        assert(bytes[pos] as char == t.ch);
        assert(bytes.subrange(pos + 1, pos + 1 + glyphs::TEMPLATE_LEN) == t.bits);
        assert(!has_duplicate(before, t.ch, t.bits)) by {
            assert forall|i: int| 0 <= i < before.len() && (#[trigger] before[i]).ch == t.ch implies glyphs::similarity(
                before[i].bits,
                t.bits,
            ) <= SAME_TEMPLATE by {
                assert(before[i] == items[i]);
                assert(items[i].ch == items[k].ch);
            }
        }
        assert(add_record(before, bytes[pos], t.bits) =~= items.take(k + 1));
        lemma_records_read_back(bytes, items, k + 1);
    }
}

/// A file that does not start with `TPR1` and a number adds nothing, and none takes anything away.
pub proof fn lemma_other_file(items: Seq<TemplateView>, bytes: Seq<u8>)
    ensures
        bytes.len() < 8 || bytes.take(4) != seq![84u8, 80u8, 82u8, 49u8] ==> loaded(items, bytes) == items,
        items.is_prefix_of(loaded(items, bytes)),
{
    lemma_load_keeps(items, bytes, 8, blob_count(bytes));
    if blob_header(bytes) {
        assert(bytes.take(4) =~= seq![84u8, 80u8, 82u8, 49u8]);
    }
}

/// A template is left out of a file's where one of its letter is more than about 99.5 % similar, and only then; the
/// same picture of another letter is kept.
pub proof fn lemma_duplicates(items: Seq<TemplateView>, t: TemplateView)
    ensures
        (exists|i: int|
            0 <= i < items.len() && (#[trigger] items[i]).ch == t.ch && 10_000 * glyphs::similarity(items[i].bits, t.bits) > 9_951
                * single::ONE) ==> has_duplicate(items, t.ch, t.bits),
        has_duplicate(items, t.ch, t.bits) ==> exists|i: int|
            0 <= i < items.len() && (#[trigger] items[i]).ch == t.ch && 10_000 * glyphs::similarity(items[i].bits, t.bits) > 9_949
                * single::ONE,
        (forall|i: int| 0 <= i < items.len() ==> (#[trigger] items[i]).ch != t.ch) ==> !has_duplicate(items, t.ch, t.bits),
{
    if exists|i: int|
        0 <= i < items.len() && (#[trigger] items[i]).ch == t.ch && 10_000 * glyphs::similarity(items[i].bits, t.bits) > 9_951
            * single::ONE {
        let i = choose|i: int|
            0 <= i < items.len() && (#[trigger] items[i]).ch == t.ch && 10_000 * glyphs::similarity(items[i].bits, t.bits) > 9_951
                * single::ONE;
        assert(items[i].ch == t.ch && glyphs::similarity(items[i].bits, t.bits) > SAME_TEMPLATE);
    }
    if has_duplicate(items, t.ch, t.bits) {
        let i = choose|i: int|
            0 <= i < items.len() && (#[trigger] items[i]).ch == t.ch && glyphs::similarity(items[i].bits, t.bits) > SAME_TEMPLATE;
        assert(items[i].ch == t.ch && 10_000 * glyphs::similarity(items[i].bits, t.bits) > 9_949 * single::ONE);
    }
}

/// A picture is learned where its letter has fewer than eight templates and none that is about 97.5 % similar, and only
/// then. It is then the last template, and all others stay.
pub proof fn lemma_learn_new(items: Seq<TemplateView>, bits: Seq<u8>, ch: char)
    ensures
        ({
            let score = letter_score(items, bits, ch);
            let count = letter_count(items, ch);
            let after = learn(items, bits, ch);
            &&& 10_000 * score > 9_751 * single::ONE || count >= 8 ==> after == items
            &&& 10_000 * score < 9_749 * single::ONE && count < 8 ==> after.len() == items.len() + 1 && after.last().ch == ch
                && after.last().bits == bits && after.drop_last() == items
            &&& after.len() == items.len() || after.len() == items.len() + 1
        }),
{
    assert(items.push(TemplateView { ch, bits }).drop_last() =~= items);
}

/// A word is learned only where it has at least three letters and a picture of each.
pub proof fn lemma_trained(items: Seq<TemplateView>, image: extract::ImageView, word: Seq<char>)
    ensures
        ({
            let letters = text::letters_of(word);
            let gs = glyphs::glyphs_of(image);
            &&& letters.len() < 3 || gs.len() != letters.len() ==> trained(items, image, word) == items
            &&& letters.len() > 2 && gs.len() == letters.len() ==> trained(items, image, word) == learn_all(items, gs, letters)
        }),
{
}

/// Training teaches: afterwards each letter of the word scores more than 0.97 on its own glyph, unless it has its
/// eight templates, and letters that are not in the word score as before on every picture.
pub proof fn lemma_training_teaches(
    items: Seq<TemplateView>,
    gs: Seq<glyphs::GlyphView>,
    chars: Seq<char>,
    i: int,
    bits: Seq<u8>,
    ch: char,
)
    requires
        gs.len() == chars.len(),
        forall|k: int|
            0 <= k < gs.len() ==> (#[trigger] gs[k]).bits.len() == glyphs::TEMPLATE_LEN && glyphs::set_places(
                gs[k].bits,
            ).len() > 0,
        forall|k: int| 0 <= k < chars.len() ==> 'A' <= #[trigger] chars[k] && chars[k] <= 'Z',
        0 <= i < gs.len(),
    ensures
        100 * letter_score(learn_all(items, gs, chars), gs[i].bits, chars[i]) > 97 * single::ONE || letter_count(
            learn_all(items, gs, chars),
            chars[i],
        ) >= 8,
        !chars.contains(ch) ==> letter_score(learn_all(items, gs, chars), bits, ch) == letter_score(items, bits, ch),
    decreases gs.len(),
{
    let n = gs.len() - 1;
    let s = gs.drop_last();
    let t = chars.drop_last();
    let before = learn_all(items, s, t);
    let after = learn_all(items, gs, chars);
    let shown = gs.last().bits;
    assert(gs[n] == gs.last() && chars[n] == chars.last());
    lemma_learn_last(items, gs, chars);
    if after.len() > before.len() {
        assert(after.drop_last() =~= before);
    }
    lemma_learned_others(items, gs, chars, bits, ch);
    if i == n {
        if after.len() > before.len() {
            assert(after[before.len() as int].bits == shown);
            lemma_score_of_template(after, before.len() as int);
        }
    } else {
        assert forall|k: int| 0 <= k < s.len() implies (#[trigger] s[k]).bits.len() == glyphs::TEMPLATE_LEN
            && glyphs::set_places(s[k].bits).len() > 0 by {
            assert(s[k] == gs[k]);
        }
        assert forall|k: int| 0 <= k < t.len() implies 'A' <= #[trigger] t[k] && t[k] <= 'Z' by {
            assert(t[k] == chars[k]);
        }
        assert(s[i] == gs[i] && t[i] == chars[i]);
        lemma_training_teaches(items, s, t, i, bits, ch);
        if after.len() > before.len() {
            lemma_score_grows(before, after.last(), gs[i].bits, chars[i]);
            assert(before.push(after.last()) =~= after);
        }
    }
}

proof fn lemma_learn_push(items: Seq<TemplateView>, bits: Seq<u8>, ch: char, after: Seq<TemplateView>)
    requires
        after == learn(items, bits, ch),
    ensures
        after == items && (letter_score(items, bits, ch) > WELL_KNOWN || letter_count(items, ch) >= 8) || after
            == items.push(TemplateView { ch, bits }),
{
}

proof fn lemma_learn_last(items: Seq<TemplateView>, gs: Seq<glyphs::GlyphView>, chars: Seq<char>)
    requires
        gs.len() > 0,
        gs.len() == chars.len(),
        forall|k: int| 0 <= k < chars.len() ==> 'A' <= #[trigger] chars[k] && chars[k] <= 'Z',
    ensures
        ({
            let before = learn_all(items, gs.drop_last(), chars.drop_last());
            let after = learn_all(items, gs, chars);
            let ch = chars.last();
            let bits = gs.last().bits;
            &&& before.len() <= after.len() <= before.len() + 1
            &&& after.len() > before.len() ==> after == before.push(TemplateView { ch, bits })
            &&& after.len() == before.len() ==> after == before && (letter_score(before, bits, ch) > WELL_KNOWN
                || letter_count(before, ch) >= 8)
        }),
{
    let before = learn_all(items, gs.drop_last(), chars.drop_last());
    let after = learn_all(items, gs, chars);
    let ch = chars.last();
    let bits = gs.last().bits;
    let more = TemplateView { ch, bits };
    assert(after == learn(before, bits, ch));
    assert(ch == chars[chars.len() - 1]);
    lemma_learn_push(before, bits, ch, after);
    if after.len() == before.len() + 1 {
        assert(after == before.push(more));
    } else {
        assert(after == before);
    }
}

proof fn lemma_learned_others(
    items: Seq<TemplateView>,
    gs: Seq<glyphs::GlyphView>,
    chars: Seq<char>,
    bits: Seq<u8>,
    ch: char,
)
    requires
        gs.len() == chars.len(),
        forall|k: int| 0 <= k < chars.len() ==> 'A' <= #[trigger] chars[k] && chars[k] <= 'Z',
    ensures
        !chars.contains(ch) ==> letter_score(learn_all(items, gs, chars), bits, ch) == letter_score(items, bits, ch),
    decreases gs.len(),
{
    if gs.len() > 0 && !chars.contains(ch) {
        let t = chars.drop_last();
        assert(!t.contains(ch)) by {
            if t.contains(ch) {
                let k = t.index_of(ch);
                assert(chars[k] == ch);
            }
        }
        assert forall|k: int| 0 <= k < t.len() implies 'A' <= #[trigger] t[k] && t[k] <= 'Z' by {
            assert(t[k] == chars[k]);
        }
        lemma_learned_others(items, gs.drop_last(), t, bits, ch);
        assert(chars[chars.len() - 1] != ch);
        let before = learn_all(items, gs.drop_last(), t);
        let after = learn_all(items, gs, chars);
        lemma_learn_last(items, gs, chars);
        if after.len() > before.len() {
            lemma_score_grows(before, after.last(), bits, ch);
            assert(before.push(after.last()) =~= after);
        }
    }
}

/// The templates after one letter has been shown: it is learned unless it is well known already or
/// the letter has eight templates.
pub open spec fn learn(items: Seq<TemplateView>, bits: Seq<u8>, ch: char) -> Seq<TemplateView> {
    if letter_score(items, bits, ch) > WELL_KNOWN || letter_count(items, ch) >= 8 {
        items
    } else {
        items.push(TemplateView { ch, bits })
    }
}

/// The templates after the glyphs have been shown as the letters `chars`.
pub open spec fn learn_all(items: Seq<TemplateView>, gs: Seq<glyphs::GlyphView>, chars: Seq<char>) -> Seq<TemplateView>
    decreases gs.len(),
{
    if gs.len() == 0 {
        items
    } else {
        learn(learn_all(items, gs.drop_last(), chars.drop_last()), gs.last().bits, chars.last())
    }
}

/// The templates after a picture has been shown as `word`. Where the picture does not have one
/// letter for each of at least three letters of the word, nothing is learned.
pub open spec fn trained(items: Seq<TemplateView>, image: extract::ImageView, word: Seq<char>) -> Seq<TemplateView> {
    let gs = glyphs::glyphs_of(image);
    let chars = text::letters_of(word);
    if gs.len() != chars.len() || chars.len() < 3 {
        items
    } else {
        learn_all(items, gs, chars)
    }
}

proof fn lemma_learn(items: Seq<TemplateView>, bits: Seq<u8>, shown: char, ch: char)
    ensures
        items.is_prefix_of(learn(items, bits, shown)),
        learn(items, bits, shown).len() <= items.len() + 1,
        letter_count(learn(items, bits, shown), ch) == letter_count(items, ch) || letter_count(
            learn(items, bits, shown),
            ch,
        ) <= 8,
{
    let after = learn(items, bits, shown);
    if after.len() > items.len() {
        assert(after.drop_last() =~= items);
    }
}

/// Training keeps the templates that were there, and takes no letter beyond eight templates.
pub proof fn lemma_training_bounded(items: Seq<TemplateView>, gs: Seq<glyphs::GlyphView>, chars: Seq<char>, ch: char)
    requires
        gs.len() == chars.len(),
    ensures
        items.is_prefix_of(learn_all(items, gs, chars)),
        letter_count(learn_all(items, gs, chars), ch) <= 8 || letter_count(learn_all(items, gs, chars), ch)
            == letter_count(items, ch),
        learn_all(items, gs, chars).len() <= items.len() + gs.len(),
    decreases gs.len(),
{
    if gs.len() > 0 {
        lemma_training_bounded(items, gs.drop_last(), chars.drop_last(), ch);
        let before = learn_all(items, gs.drop_last(), chars.drop_last());
        lemma_learn(before, gs.last().bits, chars.last(), ch);
    }
}

impl TemplateDb {
    /// The templates of a template file.
    pub fn new(seed: &[u8]) -> (db: Self)
        ensures
            db@ == loaded(Seq::empty(), seed@),
            db_wf(db@),
    {
        let mut db = TemplateDb { items: Vec::new() };
        assert(db@ =~= Seq::<TemplateView>::empty());
        db.load_blob(seed);
        db
    }

    fn add(&mut self, ch: char, bits: Vec<u8>)
        ensures
            final(self)@ == old(self)@.push(TemplateView { ch, bits: bits@ }),
    {
        self.items.push(GlyphTemplate { ch, bits });
        assert(self@ =~= old(self)@.push(TemplateView { ch, bits: bits@ }));
    }

    fn duplicate(&self, ch: char, bits: &Vec<u8>) -> (found: bool)
        requires
            db_wf(self@),
        ensures
            found == has_duplicate(self@, ch, bits@),
    {
        let mut i: usize = 0;
        while i < self.items.len()
            invariant
                i <= self.items.len(),
                db_wf(self@),
                forall|k: int|
                    0 <= k < i ==> !((#[trigger] self@[k]).ch == ch && glyphs::similarity(self@[k].bits, bits@)
                        > SAME_TEMPLATE),
            decreases self.items.len() - i,
        {
            assert(self@[i as int] == self.items@[i as int]@);
            if self.items[i].ch == ch && glyphs::glyph_similarity(self.items[i].bits.as_slice(), bits.as_slice())
                > SAME_TEMPLATE {
                return true;
            }
            i = i + 1;
        }
        false
    }

    /// Adds the templates of a template file. Bytes that are not such a file add nothing; of a file
    /// that ends early the whole records are taken.
    pub fn load_blob(&mut self, bytes: &[u8])
        requires
            db_wf(old(self)@),
        ensures
            final(self)@ == loaded(old(self)@, bytes@),
            db_wf(final(self)@),
    {
        let len: usize = bytes.len();
        if len < 8 || bytes[0] != 84 || bytes[1] != 80 || bytes[2] != 82 || bytes[3] != 49 {
            return ;
        }
        let count: u64 = bytes[4] as u64 + 0x100 * (bytes[5] as u64) + 0x1_0000 * (bytes[6] as u64) + 0x100_0000 * (
        bytes[7] as u64);
        let mut pos: usize = 8;
        let mut left: u64 = count;
        while left > 0 && len - pos >= 1 + glyphs::TEMPLATE_LEN
            invariant
                len == bytes@.len(),
                8 <= pos <= len,
                blob_header(bytes@),
                count == blob_count(bytes@),
                db_wf(self@),
                load_records(self@, bytes@, pos as int, left as nat) == load_records(
                    old(self)@,
                    bytes@,
                    8,
                    count as nat,
                ),
            decreases left,
        {
            let ghost items = self@;
            let byte: u8 = bytes[pos];
            let ghost record = bytes@.subrange(pos + 1, pos + 1 + glyphs::TEMPLATE_LEN);
            if byte >= 65 && byte <= 90 {
                let ch: char = byte as char;
                let mut bits: Vec<u8> = Vec::new();
                let mut i: usize = 0;
                while i < glyphs::TEMPLATE_LEN
                    invariant
                        i <= glyphs::TEMPLATE_LEN,
                        len == bytes@.len(),
                        pos + 1 + glyphs::TEMPLATE_LEN <= len,
                        bits@ == bytes@.subrange(pos + 1, pos + 1 + i),
                    decreases glyphs::TEMPLATE_LEN - i,
                {
                    bits.push(bytes[pos + 1 + i]);
                    i = i + 1;
                    assert(bytes@.subrange(pos + 1, pos + 1 + i) =~= bytes@.subrange(pos + 1, pos + i).push(
                        bytes@[pos + i],
                    ));
                }
                if !self.duplicate(ch, &bits) {
                    self.add(ch, bits);
                }
            }
            assert(self@ == add_record(items, byte, record));
            pos = pos + 1 + glyphs::TEMPLATE_LEN;
            left = left - 1;
        }
    }

    /// The letters that have a template, in alphabetical order, each once.
    pub fn known_letters(&self) -> (letters: String)
        ensures
            letters@ == letters_before(self@, 26),
    {
        let mut letters = String::new();
        let mut n: u8 = 0;
        while n < 26
            invariant
                n <= 26,
                letters@ == letters_before(self@, n as int),
            decreases 26 - n,
        {
            let ch: char = (65 + n) as char;
            let mut found: bool = false;
            let mut i: usize = 0;
            while i < self.items.len()
                invariant
                    i <= self.items.len(),
                    found ==> exists|k: int| 0 <= k < self@.len() && (#[trigger] self@[k]).ch == ch,
                    !found ==> forall|k: int| 0 <= k < i ==> (#[trigger] self@[k]).ch != ch,
                decreases self.items.len() - i,
            {
                assert(self@[i as int] == self.items@[i as int]@);
                if self.items[i].ch == ch {
                    found = true;
                }
                i = i + 1;
            }
            if found {
                letters.push(ch);
            }
            n = n + 1;
        }
        letters
    }

    /// The best similarity of `bits` to a template of letter `ch`.
    fn score(&self, bits: &Vec<u8>, ch: char) -> (s: u128)
        requires
            bits@.len() == glyphs::TEMPLATE_LEN,
        ensures
            s == letter_score(self@, bits@, ch),
            s <= single::ONE,
    {
        let mut best: u128 = 0;
        let mut i: usize = 0;
        while i < self.items.len()
            invariant
                i <= self.items.len(),
                bits@.len() == glyphs::TEMPLATE_LEN,
                best == letter_score(self@.take(i as int), bits@, ch),
                best <= single::ONE,
            decreases self.items.len() - i,
        {
            proof {
                assert(self@.take(i + 1).drop_last() =~= self@.take(i as int));
                assert(self@.take(i + 1).last() == self.items@[i as int]@);
            }
            if self.items[i].ch == ch {
                let here: u128 = glyphs::glyph_similarity(bits.as_slice(), self.items[i].bits.as_slice());
                if here > best {
                    best = here;
                }
            }
            i = i + 1;
        }
        assert(self@.take(i as int) =~= self@);
        best
    }

    /// How many templates of letter `ch` there are.
    fn count(&self, ch: char) -> (n: usize)
        ensures
            n == letter_count(self@, ch),
    {
        let mut n: usize = 0;
        let mut i: usize = 0;
        while i < self.items.len()
            invariant
                n <= i <= self.items.len(),
                n == letter_count(self@.take(i as int), ch),
            decreases self.items.len() - i,
        {
            proof {
                assert(self@.take(i + 1).drop_last() =~= self@.take(i as int));
                assert(self@.take(i + 1).last() == self.items@[i as int]@);
            }
            if self.items[i].ch == ch {
                n = n + 1;
            }
            i = i + 1;
        }
        assert(self@.take(i as int) =~= self@);
        n
    }

    /// The letter that `bits` shows and its score, where one stands out.
    fn letter(&self, bits: &Vec<u8>) -> (r: Option<(char, u128)>)
        requires
            bits@.len() == glyphs::TEMPLATE_LEN,
        ensures
            r is Some <==> read_letter(self@, bits@) is Some,
            r matches Some((ch, s)) ==> read_letter(self@, bits@) == Some((ch, s as nat)),
    {
        let ghost scores = alphabet_scores(self@, bits@);
        let mut at: u8 = 0;
        let mut best: u128 = self.score(bits, 'A');
        let mut second: u128 = 0;
        let mut n: u8 = 1;
        let ghost mut other: int = 0;
        assert(scores.take(1).len() == 1);
        while n < 26
            invariant
                1 <= n <= 26,
                at < n,
                bits@.len() == glyphs::TEMPLATE_LEN,
                scores == alphabet_scores(self@, bits@),
                at == first_greatest(scores.take(n as int)),
                best == scores[at as int],
                best <= single::ONE,
                second <= best,
                forall|i: int| 0 <= i < n && i != at ==> #[trigger] scores[i] <= second,
                n > 1 ==> 0 <= other < n && other != at && second == scores[other],
            decreases 26 - n,
        {
            let s: u128 = self.score(bits, (65 + n) as char);
            proof {
                assert(s == scores[n as int]);
                assert(scores.take(n + 1).drop_last() =~= scores.take(n as int));
                assert(scores.take(n + 1).last() == scores[n as int]);
                lemma_first_greatest(scores.take(n as int));
                assert forall|i: int| 0 <= i < n implies #[trigger] scores[i] <= best by {
                    assert(scores.take(n as int)[i] == scores[i]);
                }
            }
            if s > best {
                second = best;
                proof {
                    other = at as int;
                }
                best = s;
                at = n;
            } else if s > second || n == 1 {
                second = s;
                proof {
                    other = n as int;
                }
            }
            n = n + 1;
        }
        proof {
            assert(scores.take(26) =~= scores);
            lemma_first_greatest(scores);
            let rest = scores.remove(at as int);
            lemma_first_greatest(rest);
            let g = first_greatest(rest);
            let spot = if g < at {
                g
            } else {
                g + 1
            };
            assert(rest[g] == scores[spot]);
            assert(scores[spot] <= second);
            let mine = if other < at {
                other
            } else {
                other - 1
            };
            assert(rest[mine] == scores[other]);
            assert(greatest(rest) == second);
        }
        if best < WEAK || (best < STRONG && single::gap(best, second) < MARGIN) {
            None
        } else {
            Some(((65 + at) as char, best))
        }
    }

    /// Reads the word of a picture, where every letter stands out.
    pub fn recognize(&self, image: &TextImage) -> (r: Option<FastResult>)
        requires
            image@.wf(),
            db_wf(self@),
        ensures
            r is Some <==> recognized(self@, image@) is Some,
            r matches Some(f) ==> recognized(self@, image@) == Some(
                (f.word@, f.current_index as int, f.min_similarity as nat),
            ),
    {
        let found = glyphs::segment_glyphs(image);
        let ghost gs = glyphs::glyphs_of(image@);
        if found.len() < 3 || found.len() > 20 || self.items.len() == 0 {
            return None;
        }
        let mut word = String::new();
        let mut least: u128 = single::ONE;
        let mut i: usize = 0;
        assert(gs.take(0).len() == 0);
        while i < found.len()
            invariant
                i <= found.len(),
                gs == glyphs::glyphs_of(image@),
                gs == found@.map_values(|g: Glyph| g@),
                read_word(self@, gs.take(i as int)) == Some((word@, least as nat)),
            decreases found.len() - i,
        {
            proof {
                assert(gs.take(i + 1).drop_last() =~= gs.take(i as int));
                assert(gs.take(i + 1).last() == found@[i as int]@);
                assert(gs[i as int] == found@[i as int]@);
            }
            match self.letter(&found[i].bits) {
                Some((ch, score)) => {
                    word.push(ch);
                    if score < least {
                        least = score;
                    }
                },
                None => {
                    proof {
                        lemma_unreadable(self@, gs, i + 1);
                    }
                    return None;
                },
            }
            i = i + 1;
        }
        assert(gs.take(i as int) =~= gs);
        match glyphs::current_glyph_index(image, &found) {
            Some(index) => Some(FastResult { word, current_index: index, min_similarity: least }),
            None => None,
        }
    }

    /// Learns the letters of a picture that is known to show `word`, and returns how many templates
    /// were added.
    pub fn train_word(&mut self, image: &TextImage, word: &str) -> (added: usize)
        requires
            image@.wf(),
            db_wf(old(self)@),
        ensures
            final(self)@ == trained(old(self)@, image@, word@),
            added == final(self)@.len() - old(self)@.len(),
            db_wf(final(self)@),
    {
        let found = glyphs::segment_glyphs(image);
        let ghost gs = glyphs::glyphs_of(image@);
        let chars = text::upper_letters(word);
        if found.len() != chars.len() || chars.len() < 3 {
            return 0;
        }
        let mut added: usize = 0;
        let mut i: usize = 0;
        while i < found.len()
            invariant
                added <= i <= found.len(),
                found.len() == chars.len(),
                gs == glyphs::glyphs_of(image@),
                gs == found@.map_values(|g: Glyph| g@),
                forall|k: int| 0 <= k < chars.len() ==> 'A' <= #[trigger] chars@[k] && chars@[k] <= 'Z',
                self@ == learn_all(old(self)@, gs.take(i as int), chars@.take(i as int)),
                added == self@.len() - old(self)@.len(),
                db_wf(self@),
            decreases found.len() - i,
        {
            let ch: char = chars[i];
            proof {
                assert(gs.take(i + 1).drop_last() =~= gs.take(i as int));
                assert(gs.take(i + 1).last() == found@[i as int]@);
                assert(gs[i as int] == found@[i as int]@);
                assert(chars@.take(i + 1).drop_last() =~= chars@.take(i as int));
                assert(chars@.take(i + 1).last() == ch);
            }
            proof {
                glyphs::lemma_glyph_size(image@, i as int);
            }
            let already: u128 = self.score(&found[i].bits, ch);
            if !(already > WELL_KNOWN || self.count(ch) >= 8) {
                let bits = copy_bits(&found[i].bits);
                let ghost before = self@;
                self.add(ch, bits);
                assert forall|k: int| 0 <= k < self@.len() implies 'A' <= (#[trigger] self@[k]).ch && self@[k].ch
                    <= 'Z' && self@[k].bits.len() == glyphs::TEMPLATE_LEN by {
                    if k < before.len() {
                        assert(self@[k] == before[k]);
                    }
                }
                added = added + 1;
            }
            i = i + 1;
        }
        assert(gs.take(i as int) =~= gs);
        assert(chars@.take(i as int) =~= chars@);
        added
    }
}

proof fn lemma_unreadable(items: Seq<TemplateView>, gs: Seq<glyphs::GlyphView>, n: int)
    requires
        0 <= n <= gs.len(),
        read_word(items, gs.take(n)) is None,
    ensures
        read_word(items, gs) is None,
    decreases gs.len() - n,
{
    if n == gs.len() {
        assert(gs.take(n) =~= gs);
    } else {
        assert(gs.take(n + 1).drop_last() =~= gs.take(n));
        lemma_unreadable(items, gs, n + 1);
    }
}

fn copy_bits(bits: &Vec<u8>) -> (out: Vec<u8>)
    ensures
        out@ == bits@,
{
    let mut out: Vec<u8> = Vec::new();
    out.extend_from_slice(bits.as_slice());
    assert(out@ =~= bits@);
    out
}

} // verus!
