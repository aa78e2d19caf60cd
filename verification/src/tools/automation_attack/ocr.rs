//! Reading the output of the reading program: one line for each letter, with its box.

use crate::order;
use crate::text;
use vstd::prelude::*;
use vstd::string::*;

verus! {

/// A character that separates words.
pub open spec fn is_space(c: char) -> bool {
    let u = c as u32;
    ||| 0x9 <= u <= 0xd
    ||| u == 0x20
    ||| u == 0x85
    ||| u == 0xa0
    ||| u == 0x1680
    ||| 0x2000 <= u <= 0x200a
    ||| u == 0x2028
    ||| u == 0x2029
    ||| u == 0x202f
    ||| u == 0x205f
    ||| u == 0x3000
}

fn space(c: char) -> (yes: bool)
    ensures
        yes == is_space(c),
{
    let u: u32 = c as u32;
    (u >= 0x9 && u <= 0xd) || u == 0x20 || u == 0x85 || u == 0xa0 || u == 0x1680 || (u >= 0x2000 && u <= 0x200a) || u
        == 0x2028 || u == 0x2029 || u == 0x202f || u == 0x205f || u == 0x3000
}

/// The words of a line: its longest runs of characters that are not spaces.
pub open spec fn words(s: Seq<char>) -> Seq<Seq<char>>
    decreases s.len(),
{
    if s.len() == 0 {
        Seq::empty()
    } else {
        let before = words(s.drop_last());
        let c = s.last();
        if is_space(c) {
            before
        } else if s.len() == 1 || is_space(s[s.len() - 2]) {
            before.push(seq![c])
        } else {
            before.drop_last().push(before.last().push(c))
        }
    }
}

/// The lines of a text.
pub open spec fn lines(s: Seq<char>) -> Seq<Seq<char>>
    decreases s.len(),
{
    if s.len() == 0 {
        seq![Seq::empty()]
    } else {
        let before = lines(s.drop_last());
        if s.last() == '\n' {
            before.push(Seq::empty())
        } else {
            before.drop_last().push(before.last().push(s.last()))
        }
    }
}

/// Words are not empty, and a line that ends with something else than a space ends with a word.
pub proof fn lemma_words(s: Seq<char>)
    ensures
        forall|i: int| 0 <= i < words(s).len() ==> (#[trigger] words(s)[i]).len() > 0,
        s.len() > 0 && !is_space(s.last()) ==> words(s).len() > 0,
        words(s).len() <= s.len(),
    decreases s.len(),
{
    if s.len() > 0 {
        lemma_words(s.drop_last());
        assert(s.len() > 1 ==> s.drop_last().last() == s[s.len() - 2]);
    }
}

/// The items of a list of texts.
pub open spec fn texts(v: Seq<Vec<char>>) -> Seq<Seq<char>> {
    v.map_values(|w: Vec<char>| w@)
}

fn append_last(v: &mut Vec<Vec<char>>, c: char)
    requires
        old(v).len() > 0,
    ensures
        texts(final(v)@) == texts(old(v)@).drop_last().push(texts(old(v)@).last().push(c)),
{
    let ghost before = v@;
    match v.pop() {
        Some(w) => {
            let mut w = w;
            w.push(c);
            v.push(w);
        },
        None => {},
    }
    assert(texts(v@) =~= texts(before).drop_last().push(texts(before).last().push(c)));
}

fn split_words(line: &Vec<char>) -> (out: Vec<Vec<char>>)
    ensures
        texts(out@) == words(line@),
{
    let mut out: Vec<Vec<char>> = Vec::new();
    let mut i: usize = 0;
    assert(texts(out@) =~= Seq::empty());
    assert(line@.take(0).len() == 0);
    while i < line.len()
        invariant
            i <= line.len(),
            texts(out@) == words(line@.take(i as int)),
        decreases line.len() - i,
    {
        let c = line[i];
        proof {
            assert(line@.take(i + 1).drop_last() =~= line@.take(i as int));
            lemma_words(line@.take(i as int));
            if i > 0 {
                assert(line@.take(i + 1)[i - 1] == line@[i - 1]);
                assert(line@.take(i as int).last() == line@[i - 1]);
            }
        }
        if !space(c) {
            if i == 0 || space(line[i - 1]) {
                let mut w: Vec<char> = Vec::new();
                w.push(c);
                assert(w@ =~= seq![c]);
                let ghost before = out@;
                out.push(w);
                assert(texts(out@) =~= texts(before).push(seq![c]));
            } else {
                append_last(&mut out, c);
            }
        }
        i = i + 1;
    }
    assert(line@.take(i as int) =~= line@);
    out
}

proof fn lemma_lines(s: Seq<char>)
    ensures
        lines(s).len() > 0,
    decreases s.len(),
{
    if s.len() > 0 {
        lemma_lines(s.drop_last());
    }
}

fn split_lines(chars: &Vec<char>) -> (out: Vec<Vec<char>>)
    ensures
        texts(out@) == lines(chars@),
{
    let mut out: Vec<Vec<char>> = Vec::new();
    out.push(Vec::new());
    let mut i: usize = 0;
    assert(chars@.take(0).len() == 0);
    assert(texts(out@) =~= seq![Seq::<char>::empty()]);
    while i < chars.len()
        invariant
            i <= chars.len(),
            texts(out@) == lines(chars@.take(i as int)),
        decreases chars.len() - i,
    {
        let c = chars[i];
        proof {
            assert(chars@.take(i + 1).drop_last() =~= chars@.take(i as int));
            lemma_lines(chars@.take(i as int));
        }
        if c == '\n' {
            let ghost before = out@;
            let line: Vec<char> = Vec::new();
            out.push(line);
            assert(texts(out@) =~= texts(before).push(Seq::empty()));
        } else {
            append_last(&mut out, c);
        }
        i = i + 1;
    }
    assert(chars@.take(i as int) =~= chars@);
    out
}

/// A decimal digit.
pub open spec fn is_digit(c: char) -> bool {
    '0' <= c && c <= '9'
}

/// The number that some digits write.
pub open spec fn number(s: Seq<char>) -> nat
    decreases s.len(),
{
    if s.len() == 0 {
        0
    } else {
        number(s.drop_last()) * 10 + (s.last() as u32 - 48) as nat
    }
}

/// All characters are digits, and there is at least one.
pub open spec fn all_digits(s: Seq<char>) -> bool {
    s.len() > 0 && forall|i: int| 0 <= i < s.len() ==> is_digit(#[trigger] s[i])
}

/// A text without its sign.
pub open spec fn unsigned(s: Seq<char>) -> Seq<char> {
    if s.len() > 0 && (s[0] == '+' || s[0] == '-') {
        s.skip(1)
    } else {
        s
    }
}

/// The integer of 32 bits that a text writes in decimal, with or without a sign; none where it writes
/// something else.
pub open spec fn integer(s: Seq<char>) -> Option<int> {
    let n = number(unsigned(s)) as int;
    let v = if s.len() > 0 && s[0] == '-' {
        -n
    } else {
        n
    };
    if all_digits(unsigned(s)) && i32::MIN <= v <= i32::MAX {
        Some(v)
    } else {
        None
    }
}

/// The integer of 32 bits that a text writes in decimal.
pub fn parse_integer(s: &Vec<char>) -> (r: Option<i32>)
    ensures
        r is Some <==> integer(s@) is Some,
        r matches Some(v) ==> integer(s@) == Some(v as int),
{
    let negative: bool = s.len() > 0 && s[0] == '-';
    let start: usize = if s.len() > 0 && (s[0] == '+' || s[0] == '-') {
        1
    } else {
        0
    };
    let ghost rest = unsigned(s@);
    assert(rest =~= s@.skip(start as int));
    if start == s.len() {
        return None;
    }
    let mut v: u64 = 0;
    let mut large: bool = false;
    let mut i: usize = start;
    assert(rest.take(0).len() == 0);
    while i < s.len()
        invariant
            start <= i <= s.len(),
            rest == s@.skip(start as int),
            rest == unsigned(s@),
            forall|k: int| 0 <= k < i - start ==> is_digit(#[trigger] rest[k]),
            !large ==> v == number(rest.take(i - start)) && v <= 0xffff_ffff * 10 + 9,
            large ==> number(rest.take(i - start)) > 0xffff_ffff,
        decreases s.len() - i,
    {
        let c = s[i];
        assert(rest[i - start] == c);
        if !(c >= '0' && c <= '9') {
            assert(!is_digit(rest[i - start]));
            return None;
        }
        let ghost t = rest.take(i + 1 - start);
        proof {
            assert(t.drop_last() =~= rest.take(i - start));
            assert(t.last() == c);
        }
        let d: u64 = (c as u32 - 48) as u64;
        if v > 0xffff_ffff {
            large = true;
        }
        if !large {
            v = v * 10 + d;
        }
        i = i + 1;
    }
    proof {
        assert(rest.take(i - start) =~= rest);
        assert(all_digits(rest));
    }
    if large {
        return None;
    }
    if negative {
        if v <= 0x8000_0000 {
            Some((-(v as i64)) as i32)
        } else {
            None
        }
    } else if v <= 0x7fff_ffff {
        Some(v as i32)
    } else {
        None
    }
}

/// A letter that was read and the left edge of its box.
#[derive(Clone, Copy, Debug, PartialEq, Eq, Structural)]
pub struct OcrChar {
    pub ch: char,
    pub x0: i32,
}

/// The letter of a line: its first word starts with an ASCII letter, and its second and fourth words are
/// integers. Other lines give none.
pub open spec fn letter_of(line: Seq<char>) -> Option<OcrChar> {
    let w = words(line);
    if w.len() >= 4 && text::is_letter(w[0][0]) && integer(w[1]) is Some && integer(w[3]) is Some {
        Some(OcrChar { ch: text::upper(w[0][0]), x0: integer(w[1])->0 as i32 })
    } else {
        None
    }
}

/// The letters of some lines, in their order.
pub open spec fn letters_of(ls: Seq<Seq<char>>) -> Seq<OcrChar>
    decreases ls.len(),
{
    if ls.len() == 0 {
        Seq::empty()
    } else {
        let before = letters_of(ls.drop_last());
        match letter_of(ls.last()) {
            Some(c) => before.push(c),
            None => before,
        }
    }
}

/// The word that was read: the letters of all lines, from left to right; those with the same left edge
/// keep their order.
pub open spec fn word_of(output: Seq<char>) -> Seq<char> {
    order::sorted_by(letters_of(lines(output)), |c: OcrChar| c.x0 as int).map_values(|c: OcrChar| c.ch)
}

fn read_letter(line: &Vec<char>) -> (r: Option<OcrChar>)
    ensures
        r == letter_of(line@),
{
    let w = split_words(line);
    proof {
        lemma_words(line@);
        assert forall|i: int| 0 <= i < w.len() implies (#[trigger] w@[i])@ == words(line@)[i] by {
            assert(texts(w@)[i] == w@[i]@);
        }
    }
    if w.len() < 4 {
        return None;
    }
    assert(words(line@)[0].len() > 0);
    let ch = w[0][0];
    if !text::letter(ch) {
        return None;
    }
    match (parse_integer(&w[1]), parse_integer(&w[3])) {
        (Some(x0), Some(_)) => Some(OcrChar { ch: text::to_upper(ch), x0 }),
        _ => None,
    }
}

fn read_letters(output: &str) -> (out: Vec<OcrChar>)
    ensures
        out@ == letters_of(lines(output@)),
{
    let chars = text::chars_of(output);
    let ls = split_lines(&chars);
    let ghost all = lines(output@);
    let mut out: Vec<OcrChar> = Vec::new();
    let mut i: usize = 0;
    assert(all.take(0).len() == 0);
    while i < ls.len()
        invariant
            i <= ls.len(),
            texts(ls@) == all,
            out@ == letters_of(all.take(i as int)),
        decreases ls.len() - i,
    {
        proof {
            assert(all.take(i + 1).drop_last() =~= all.take(i as int));
            assert(texts(ls@)[i as int] == ls@[i as int]@);
        }
        if let Some(c) = read_letter(&ls[i]) {
            out.push(c);
        }
        i = i + 1;
    }
    assert(all.take(i as int) =~= all);
    out
}

/// Reads the word from the output of the reading program.
pub fn parse_makebox(output: &str) -> (word: String)
    ensures
        word@ == word_of(output@),
{
    let letters = read_letters(output);
    let ghost f = |c: OcrChar| c.x0 as int;
    let ghost by: int = 0x8000_0000;
    let mut keys: Vec<u128> = Vec::new();
    let mut i: usize = 0;
    while i < letters.len()
        invariant
            i <= letters.len(),
            keys.len() == i,
            forall|k: int| 0 <= k < i ==> #[trigger] keys@[k] == letters@[k].x0 + 0x8000_0000,
        decreases letters.len() - i,
    {
        keys.push((letters[i].x0 as i64 + 0x8000_0000) as u128);
        i = i + 1;
    }
    let order = order::order_by(&keys);
    let ghost want = order::stable_order(letters@.map_values(f));
    proof {
        order::lemma_order_shift(letters@.map_values(f), by);
        assert(keys@.map_values(|k: u128| k as int) =~= letters@.map_values(f).map_values(|k: int| k + by));
        assert(order@.map_values(|i: usize| i as int) == want);
    }
    let ghost sorted = order::sorted_by(letters@, f);
    let mut word = String::new();
    let mut n: usize = 0;
    while n < order.len()
        invariant
            n <= order.len(),
            order.len() == letters.len(),
            f == (|c: OcrChar| c.x0 as int),
            want == order::stable_order(letters@.map_values(f)),
            order@.map_values(|i: usize| i as int) == want,
            sorted == order::sorted_by(letters@, f),
            forall|a: int| 0 <= a < order.len() ==> (#[trigger] order@[a]) < letters.len(),
            word@ == sorted.take(n as int).map_values(|c: OcrChar| c.ch),
        decreases order.len() - n,
    {
        let at: usize = order[n];
        let ghost before = word@;
        word.push(letters[at].ch);
        proof {
            assert(order@.map_values(|i: usize| i as int)[n as int] == at);
            assert(sorted[n as int] == letters@[at as int]);
            assert(sorted.take(n + 1).map_values(|c: OcrChar| c.ch) =~= before.push(letters@[at as int].ch));
        }
        n = n + 1;
    }
    assert(sorted.take(n as int) =~= sorted);
    word
}

/// Every letter that was read is a capital.
pub proof fn lemma_letters_upper(ls: Seq<Seq<char>>)
    ensures
        forall|i: int| 0 <= i < letters_of(ls).len() ==> 'A' <= (#[trigger] letters_of(ls)[i]).ch && letters_of(ls)[i].ch
            <= 'Z',
    decreases ls.len(),
{
    if ls.len() > 0 {
        lemma_letters_upper(ls.drop_last());
        if let Some(c) = letter_of(ls.last()) {
            let first = words(ls.last())[0][0];
            text::lemma_upper(first);
            assert(c.ch == text::upper(first));
            assert('A' <= c.ch && c.ch <= 'Z');
            assert(letters_of(ls) == letters_of(ls.drop_last()).push(c));
        }
    }
}

/// A word that was read has capital letters only, one for each line that gives a letter.
pub proof fn lemma_word_upper(output: Seq<char>, i: int)
    requires
        0 <= i < word_of(output).len(),
    ensures
        'A' <= word_of(output)[i] && word_of(output)[i] <= 'Z',
        word_of(output).len() == letters_of(lines(output)).len(),
{
    let letters = letters_of(lines(output));
    let keys = letters.map_values(|c: OcrChar| c.x0 as int);
    order::lemma_stable_order(keys);
    lemma_letters_upper(lines(output));
    let at = order::stable_order(keys)[i];
    let c = letters[at];
    assert(word_of(output)[i] == c.ch);
}

/// A text is its lines with line breaks between them, and no line holds a line break.
pub proof fn lemma_lines_joined(s: Seq<char>)
    ensures
        lines(s).len() > 0,
        text::joined(lines(s), '\n') == s,
        forall|i: int, k: int|
            0 <= i < lines(s).len() && 0 <= k < lines(s)[i].len() ==> #[trigger] lines(s)[i][k] != '\n',
    decreases s.len(),
{
    reveal_with_fuel(text::joined, 2);
    let ls = lines(s);
    if s.len() > 0 {
        let t = s.drop_last();
        let before = lines(t);
        lemma_lines_joined(t);
        assert(ls.drop_last() =~= if s.last() == '\n' {
            before
        } else {
            before.drop_last()
        });
        assert(s =~= t.push(s.last()));
        if s.last() == '\n' {
            assert(text::joined(ls, '\n') =~= t.push('\n') + Seq::<char>::empty());
        } else if before.len() == 1 {
            assert(ls.len() == 1);
            assert(text::joined(ls, '\n') =~= before[0].push(s.last()));
        } else {
            let head = text::joined(before.drop_last(), '\n').push('\n');
            assert(text::joined(before, '\n') == head + before.last());
            assert(text::joined(ls, '\n') =~= head + before.last().push(s.last()));
            assert(head + before.last().push(s.last()) =~= (head + before.last()).push(s.last()));
        }
        assert forall|i: int, k: int| 0 <= i < ls.len() && 0 <= k < ls[i].len() implies #[trigger] ls[i][k] != '\n' by {
            if i < ls.len() - 1 {
                assert(ls[i] == before[i]);
                assert(before[i][k] != '\n');
            } else if s.last() != '\n' && k < before.last().len() {
                assert(before[before.len() - 1][k] != '\n');
                assert(ls[i][k] == before[before.len() - 1][k]);
            }
        }
    }
}

/// A line break ends a line: the lines of two texts with one between them are those of the first and those of the
/// second.
pub proof fn lemma_lines_concat(a: Seq<char>, b: Seq<char>)
    ensures
        lines(a.push('\n') + b) == lines(a) + lines(b),
    decreases b.len(),
{
    let s = a.push('\n') + b;
    if b.len() == 0 {
        assert(s.drop_last() =~= a);
        assert(lines(s) =~= lines(a) + lines(b));
    } else {
        let t = b.drop_last();
        assert(s.drop_last() =~= a.push('\n') + t);
        lemma_lines_concat(a, t);
        lemma_lines(t);
        assert(lines(s) =~= lines(a) + lines(b));
    }
}

/// A text without spaces is one word.
pub proof fn lemma_one_word(w: Seq<char>)
    requires
        w.len() > 0,
        forall|i: int| 0 <= i < w.len() ==> !is_space(#[trigger] w[i]),
    ensures
        words(w) == seq![w],
    decreases w.len(),
{
    let t = w.drop_last();
    assert(!is_space(w[w.len() - 1]));
    if w.len() == 1 {
        assert(words(t) =~= Seq::empty());
        assert(seq![w.last()] =~= w);
        assert(words(w) =~= seq![w]);
    } else {
        assert forall|i: int| 0 <= i < t.len() implies !is_space(#[trigger] t[i]) by {
            assert(t[i] == w[i]);
        }
        lemma_one_word(t);
        assert(!is_space(w[w.len() - 2]));
        assert(t.push(w.last()) =~= w);
        assert(words(w) =~= seq![w]);
    }
}

/// A space ends a word: the words of two texts with a space between them are those of the first and those of the
/// second.
pub proof fn lemma_words_concat(a: Seq<char>, space: char, b: Seq<char>)
    requires
        is_space(space),
    ensures
        words(a.push(space) + b) == words(a) + words(b),
    decreases b.len(),
{
    let s = a.push(space) + b;
    if b.len() == 0 {
        assert(s =~= a.push(space));
        assert(s.drop_last() =~= a);
        assert(words(s) =~= words(a) + words(b));
    } else {
        let t = b.drop_last();
        assert(s.drop_last() =~= a.push(space) + t);
        lemma_words_concat(a, space, t);
        lemma_words(t);
        assert(s.last() == b.last());
        if b.len() == 1 {
            assert(s[s.len() - 2] == space);
        } else {
            assert(s[s.len() - 2] == b[b.len() - 2]);
            assert(t.last() == b[b.len() - 2]);
        }
        assert(words(s) =~= words(a) + words(b));
    }
}

/// Blanks, tabs and line ends separate words; no visible ASCII character does.
pub proof fn lemma_spaces(c: char)
    ensures
        is_space(' ') && is_space('\t') && is_space('\n') && is_space('\r'),
        '!' <= c && c <= '~' ==> !is_space(c),
{
}

proof fn lemma_digit_char(d: nat)
    requires
        d < 10,
    ensures
        is_digit(text::digit(d)),
        text::digit(d) as u32 - 48 == d,
        !is_space(text::digit(d)),
        text::digit(d) != '+' && text::digit(d) != '-',
{
}

/// A number is read back from its decimal digits.
pub proof fn lemma_number_digits(n: nat)
    ensures
        number(text::digits(n)) == n,
        all_digits(text::digits(n)),
        text::digits(n)[0] != '+' && text::digits(n)[0] != '-',
        forall|i: int| 0 <= i < text::digits(n).len() ==> !is_space(#[trigger] text::digits(n)[i]),
    decreases n,
{
    let s = text::digits(n);
    lemma_digit_char(n % 10);
    reveal_with_fuel(number, 2);
    if n < 10 {
        assert(s.drop_last() =~= Seq::empty());
        assert(s.last() == text::digit(n));
    } else {
        lemma_number_digits(n / 10);
        let t = text::digits(n / 10);
        assert(s.drop_last() =~= t);
        assert(s.last() == text::digit(n % 10));
        assert forall|i: int| 0 <= i < s.len() implies is_digit(#[trigger] s[i]) && !is_space(s[i]) by {
            if i < t.len() {
                assert(s[i] == t[i]);
            }
        }
        assert(s[0] == t[0]);
    }
}

/// An integer is read back from its decimal form, also with a plus sign; none is read from a text with anything but
/// digits behind the sign, from one without digits, nor outside 32 bits.
pub proof fn lemma_integer_decimal(i: int)
    ensures
        i32::MIN <= i <= i32::MAX ==> integer(text::decimal(i)) == Some(i),
        0 <= i <= i32::MAX ==> integer(seq!['+'] + text::decimal(i)) == Some(i),
        !(i32::MIN <= i <= i32::MAX) ==> integer(text::decimal(i)) is None,
        text::decimal(i).len() > 0,
        forall|k: int| 0 <= k < text::decimal(i).len() ==> !is_space(#[trigger] text::decimal(i)[k]),
{
    let n = if i < 0 {
        (-i) as nat
    } else {
        i as nat
    };
    lemma_number_digits(n);
    let s = text::decimal(i);
    let d = text::digits(n);
    assert((seq!['-'] + d).skip(1) =~= d);
    assert((seq!['+'] + d).skip(1) =~= d);
    assert((seq!['-'] + d)[0] == '-');
    assert((seq!['+'] + d)[0] == '+');
    assert forall|k: int| 0 <= k < s.len() implies !is_space(#[trigger] s[k]) by {
        if i < 0 {
            if k > 0 {
                assert(s[k] == d[k - 1]);
            }
        } else {
            assert(s[k] == d[k]);
        }
    }
}

/// No integer is read from a text that holds something else than digits behind its sign.
pub proof fn lemma_integer_strict(s: Seq<char>, k: int)
    requires
        0 <= k < s.len(),
        !is_digit(s[k]),
        k > 0 || !(s[0] == '+' || s[0] == '-'),
    ensures
        integer(s) is None,
{
    if s[0] == '+' || s[0] == '-' {
        assert(unsigned(s)[k - 1] == s[k]);
    }
}

/// A line of a character, its left, lower and right edge gives the character's capital with its left edge; the lower
/// edge is not looked at.
pub proof fn lemma_letter_line(ch: char, x0: int, lower: Seq<char>, x1: int, rest: Seq<char>)
    requires
        text::is_letter(ch),
        i32::MIN <= x0 <= i32::MAX,
        i32::MIN <= x1 <= i32::MAX,
        lower.len() > 0,
        forall|i: int| 0 <= i < lower.len() ==> !is_space(#[trigger] lower[i]),
    ensures
        letter_of(
            seq![ch].push(' ') + (text::decimal(x0).push(' ') + (lower.push(' ') + (text::decimal(x1).push(' ') + rest))),
        ) == Some(OcrChar { ch: text::upper(ch), x0: x0 as i32 }),
{
    let d = text::decimal(x1).push(' ') + rest;
    let c = lower.push(' ') + d;
    let b = text::decimal(x0).push(' ') + c;
    let a = seq![ch].push(' ') + b;
    lemma_integer_decimal(x0);
    lemma_integer_decimal(x1);
    assert forall|i: int| 0 <= i < seq![ch].len() implies !is_space(#[trigger] seq![ch][i]) by {
        assert(seq![ch][i] == ch);
    }
    lemma_one_word(seq![ch]);
    lemma_one_word(text::decimal(x0));
    lemma_one_word(lower);
    lemma_one_word(text::decimal(x1));
    lemma_words_concat(seq![ch], ' ', b);
    lemma_words_concat(text::decimal(x0), ' ', c);
    lemma_words_concat(lower, ' ', d);
    lemma_words_concat(text::decimal(x1), ' ', rest);
    let w = words(a);
    assert(w[0] == seq![ch] && w[1] == text::decimal(x0) && w[3] == text::decimal(x1));
    assert(w[0][0] == ch);
}

/// A line with fewer than four words, or whose first word does not start with a letter, gives none.
pub proof fn lemma_no_letter_line(line: Seq<char>)
    ensures
        words(line).len() < 4 ==> letter_of(line) is None,
        words(line).len() >= 4 && integer(words(line)[3]) is None ==> letter_of(line) is None,
        words(line).len() >= 4 && integer(words(line)[1]) is None ==> letter_of(line) is None,
        words(line).len() > 0 && '0' <= words(line)[0][0] && words(line)[0][0] <= '9' ==> letter_of(line) is None,
{
}

/// The letters of some lines and of some more are those of the first and those of the others.
pub proof fn lemma_letters_concat(a: Seq<Seq<char>>, b: Seq<Seq<char>>)
    ensures
        letters_of(a + b) == letters_of(a) + letters_of(b),
    decreases b.len(),
{
    if b.len() == 0 {
        assert(a + b =~= a);
        assert(letters_of(a) + letters_of(b) =~= letters_of(a));
    } else {
        lemma_letters_concat(a, b.drop_last());
        assert((a + b).drop_last() =~= a + b.drop_last());
        assert((a + b).last() == b.last());
        assert(letters_of(a + b) =~= letters_of(a) + letters_of(b));
    }
}

/// The word that was read has every letter that was read, ordered by their left edges.
pub proof fn lemma_word_order(output: Seq<char>) -> (letters: Seq<OcrChar>)
    ensures
        letters.len() == word_of(output).len(),
        forall|i: int| 0 <= i < letters.len() ==> (#[trigger] letters[i]).ch == word_of(output)[i],
        forall|i: int, j: int| 0 <= i < j < letters.len() ==> (#[trigger] letters[i]).x0 <= (#[trigger] letters[j]).x0,
        letters.len() == letters_of(lines(output)).len(),
        forall|c: OcrChar| letters.contains(c) <==> letters_of(lines(output)).contains(c),
{
    let all = letters_of(lines(output));
    let key = |c: OcrChar| c.x0 as int;
    let letters = order::sorted_by(all, key);
    order::lemma_sorted_by(all, key);
    assert forall|i: int, j: int| 0 <= i < j < letters.len() implies (#[trigger] letters[i]).x0 <= (#[trigger] letters[j]).x0 by {
        assert(key(letters[i]) <= key(letters[j]));
    }
    letters
}

} // verus!
