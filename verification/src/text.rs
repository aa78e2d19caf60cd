//! Building and taking apart text.

use vstd::prelude::*;
use vstd::string::*;

verus! {

/// `String::push`: appends one character at the end.
pub assume_specification[ String::push ](s: &mut String, ch: char)
    ensures
        final(s)@ == old(s)@.push(ch),
;

/// The character of a decimal digit.
pub open spec fn digit(d: nat) -> char {
    (48 + d) as char
}

/// A natural number in decimal, without leading zeros.
pub open spec fn digits(n: nat) -> Seq<char>
    decreases n,
{
    if n < 10 {
        seq![digit(n)]
    } else {
        digits(n / 10).push(digit(n % 10))
    }
}

/// An integer in decimal, with a minus sign where it is negative.
pub open spec fn decimal(i: int) -> Seq<char> {
    if i < 0 {
        seq!['-'] + digits((-i) as nat)
    } else {
        digits(i as nat)
    }
}

/// Appends a natural number in decimal.
pub fn push_nat(out: &mut String, n: u64)
    ensures
        final(out)@ == old(out)@ + digits(n as nat),
    decreases n,
{
    if n >= 10 {
        push_nat(out, n / 10);
    }
    let d: u8 = (n % 10) as u8;
    out.push((48 + d) as char);
    proof {
        assert(out@ =~= old(out)@ + digits(n as nat));
    }
}

/// Appends an integer in decimal.
pub fn push_int(out: &mut String, i: i64)
    requires
        i > i64::MIN,
    ensures
        final(out)@ == old(out)@ + decimal(i as int),
{
    if i < 0 {
        out.push('-');
        push_nat(out, (-i) as u64);
        proof {
            assert(out@ =~= old(out)@ + decimal(i as int));
        }
    } else {
        push_nat(out, i as u64);
    }
}

/// The characters of a text.
pub fn chars_of(s: &str) -> (v: Vec<char>)
    ensures
        v@ == s@,
{
    let mut v: Vec<char> = Vec::new();
    for c in it: s.chars()
        invariant
            it.seq() == s@,
            v@ == s@.take(it.index()),
    {
        v.push(c);
    }
    assert(s@.take(s@.len() as int) =~= s@);
    v
}

/// An ASCII letter.
pub open spec fn is_letter(c: char) -> bool {
    ('a' <= c && c <= 'z') || ('A' <= c && c <= 'Z')
}

/// The upper case of an ASCII letter; other characters stay as they are.
pub open spec fn upper(c: char) -> char {
    if 'a' <= c && c <= 'z' {
        (c as u32 - 32) as char
    } else {
        c
    }
}

/// The upper case of a letter is a capital.
pub proof fn lemma_upper(c: char)
    requires
        is_letter(c),
    ensures
        'A' <= upper(c) && upper(c) <= 'Z',
{
}

/// Is `c` an ASCII letter?
pub fn letter(c: char) -> (yes: bool)
    ensures
        yes == is_letter(c),
{
    (c >= 'a' && c <= 'z') || (c >= 'A' && c <= 'Z')
}

/// The upper case of an ASCII letter.
pub fn to_upper(c: char) -> (u: char)
    ensures
        u == upper(c),
{
    if c >= 'a' && c <= 'z' {
        let code: u8 = c as u8;
        (code - 32) as char
    } else {
        c
    }
}

/// The ASCII letters of a text, in upper case.
pub open spec fn letters_of(s: Seq<char>) -> Seq<char> {
    s.filter(|c: char| is_letter(c)).map_values(|c: char| upper(c))
}

/// The ASCII letters of a text, in upper case.
pub fn upper_letters(s: &str) -> (v: Vec<char>)
    ensures
        v@ == letters_of(s@),
        forall|i: int| 0 <= i < v.len() ==> 'A' <= #[trigger] v@[i] && v@[i] <= 'Z',
{
    let ghost keep = |c: char| is_letter(c);
    let ghost f = |c: char| upper(c);
    let chars = chars_of(s);
    let mut v: Vec<char> = Vec::new();
    let mut i: usize = 0;
    proof {
        crate::blobs::lemma_filter_start(s@, keep);
        assert(v@ =~= s@.take(0).filter(keep).map_values(f));
    }
    while i < chars.len()
        invariant
            i <= chars.len(),
            chars@ == s@,
            keep == (|c: char| is_letter(c)),
            f == (|c: char| upper(c)),
            v@ == s@.take(i as int).filter(keep).map_values(f),
            forall|i: int| 0 <= i < v.len() ==> 'A' <= #[trigger] v@[i] && v@[i] <= 'Z',
        decreases chars.len() - i,
    {
        let c = chars[i];
        if letter(c) {
            v.push(to_upper(c));
        }
        proof {
            crate::blobs::lemma_filter_step(s@, i as int, keep);
            assert(v@ =~= s@.take(i + 1).filter(keep).map_values(f));
        }
        i = i + 1;
    }
    assert(s@.take(i as int) =~= s@);
    v
}

/// The values of some texts.
pub open spec fn values(items: Seq<String>) -> Seq<Seq<char>> {
    items.map_values(|s: String| s@)
}

/// Some texts, one after the other, with a character between them.
pub open spec fn joined(items: Seq<Seq<char>>, sep: char) -> Seq<char>
    decreases items.len(),
{
    if items.len() == 0 {
        Seq::empty()
    } else if items.len() == 1 {
        items[0]
    } else {
        joined(items.drop_last(), sep).push(sep) + items.last()
    }
}

/// Some texts, one after the other, with a character between them.
pub fn join(items: &Vec<String>, sep: char) -> (out: String)
    ensures
        out@ == joined(values(items@), sep),
{
    let mut out = String::new();
    let ghost all = values(items@);
    let mut i: usize = 0;
    assert(all.take(0).len() == 0);
    while i < items.len()
        invariant
            i <= items.len(),
            all == values(items@),
            out@ == joined(all.take(i as int), sep),
        decreases items.len() - i,
    {
        let ghost before = out@;
        if i > 0 {
            out.push(sep);
        }
        out.append(items[i].as_str());
        proof {
            let t = all.take(i + 1);
            assert(t.drop_last() =~= all.take(i as int));
            assert(t.last() == items@[i as int]@);
            if i == 0 {
                assert(before =~= Seq::empty());
                assert(out@ =~= t[0]);
            } else {
                assert(out@ =~= before.push(sep) + t.last());
            }
        }
        i = i + 1;
    }
    assert(all.take(i as int) =~= all);
    out
}

/// How many times a character occurs.
pub open spec fn occurrences(s: Seq<char>, c: char) -> nat
    decreases s.len(),
{
    if s.len() == 0 {
        0
    } else {
        occurrences(s.drop_last(), c) + if s.last() == c {
            1nat
        } else {
            0nat
        }
    }
}

pub proof fn lemma_occurrences_concat(a: Seq<char>, b: Seq<char>, c: char)
    ensures
        occurrences(a + b, c) == occurrences(a, c) + occurrences(b, c),
    decreases b.len(),
{
    if b.len() == 0 {
        assert(a + b =~= a);
    } else {
        assert((a + b).drop_last() =~= a + b.drop_last());
        lemma_occurrences_concat(a, b.drop_last(), c);
    }
}

/// Where no item holds the separator, the joined text holds it exactly between the items: `n` items
/// can be told apart again.
pub proof fn lemma_joined_separators(items: Seq<Seq<char>>, sep: char)
    requires
        forall|i: int| 0 <= i < items.len() ==> occurrences(#[trigger] items[i], sep) == 0,
        items.len() > 0,
    ensures
        occurrences(joined(items, sep), sep) == items.len() - 1,
    decreases items.len(),
{
    if items.len() > 1 {
        let before = joined(items.drop_last(), sep);
        assert forall|i: int| 0 <= i < items.drop_last().len() implies occurrences(
            #[trigger] items.drop_last()[i],
            sep,
        ) == 0 by {
            assert(items.drop_last()[i] == items[i]);
        }
        lemma_joined_separators(items.drop_last(), sep);
        assert(before.push(sep).drop_last() =~= before);
        lemma_occurrences_concat(before.push(sep), items.last(), sep);
        assert(items[items.len() - 1] == items.last());
    }
}

/// A text with every tab replaced by a space.
pub open spec fn untabbed(s: Seq<char>) -> Seq<char> {
    s.map_values(
        |c: char|
            if c == '\t' {
                ' '
            } else {
                c
            },
    )
}

/// A text with every tab replaced by a space.
pub fn replace_tabs(s: &str) -> (out: String)
    ensures
        out@ == untabbed(s@),
{
    let chars = chars_of(s);
    let mut out = String::new();
    let mut i: usize = 0;
    while i < chars.len()
        invariant
            i <= chars.len(),
            chars@ == s@,
            out@ == untabbed(s@.take(i as int)),
        decreases chars.len() - i,
    {
        let c = chars[i];
        if c == '\t' {
            out.push(' ');
        } else {
            out.push(c);
        }
        assert(out@ =~= untabbed(s@.take(i + 1)));
        i = i + 1;
    }
    assert(s@.take(i as int) =~= s@);
    out
}

/// There is no tab in a text whose tabs were replaced.
pub proof fn lemma_untabbed(s: Seq<char>)
    ensures
        occurrences(untabbed(s), '\t') == 0,
    decreases s.len(),
{
    if s.len() > 0 {
        assert(untabbed(s).drop_last() =~= untabbed(s.drop_last()));
        lemma_untabbed(s.drop_last());
    }
}

/// A copy of a text.
pub fn copy(s: &str) -> (out: String)
    ensures
        out@ == s@,
{
    let mut out = String::new();
    out.append(s);
    assert(out@ =~= s@);
    out
}

/// A natural number in decimal.
pub fn nat_text(n: u64) -> (out: String)
    ensures
        out@ == digits(n as nat),
{
    let mut out = String::new();
    push_nat(&mut out, n);
    assert(out@ =~= digits(n as nat));
    out
}

/// An integer in decimal.
pub fn int_text(i: i32) -> (out: String)
    ensures
        out@ == decimal(i as int),
{
    let mut out = String::new();
    push_int(&mut out, i as i64);
    assert(out@ =~= decimal(i as int));
    out
}

/// Capitals: letters stay letters, those that are capitals already and all other characters stay as they are, and each
/// small letter becomes the capital at the same place in the alphabet.
pub proof fn lemma_upper_alphabet(c: char)
    ensures
        upper(upper(c)) == upper(c),
        is_letter(upper(c)) == is_letter(c),
        !('a' <= c && c <= 'z') ==> upper(c) == c,
        'a' <= c && c <= 'z' ==> 'A' <= upper(c) && upper(c) <= 'Z' && c as int - 'a' as int == upper(c) as int - 'A' as int,
{
}

/// The letters of a text are those of its parts, one after the other.
pub proof fn lemma_letters_concat(a: Seq<char>, b: Seq<char>)
    ensures
        letters_of(a + b) == letters_of(a) + letters_of(b),
{
    let keep = |c: char| is_letter(c);
    let f = |c: char| upper(c);
    Seq::filter_distributes_over_add(a, b, keep);
    assert(letters_of(a + b) =~= letters_of(a) + letters_of(b));
}

/// The letters of a single character: its capital where it is a letter, and nothing otherwise.
pub proof fn lemma_letters_one(c: char)
    ensures
        letters_of(seq![c]) == (if ('a' <= c && c <= 'z') || ('A' <= c && c <= 'Z') {
            seq![upper(c)]
        } else {
            Seq::empty()
        }),
{
    let keep = |c: char| is_letter(c);
    reveal_with_fuel(Seq::filter, 2);
    assert(seq![c].drop_last() =~= Seq::empty());
    assert(seq![c].last() == c);
    assert(seq![c].filter(keep) =~= if keep(c) {
        seq![c]
    } else {
        Seq::empty()
    });
}

/// Decimals are not empty and have no leading zero but for zero itself; a longer number has at least as many digits.
pub proof fn lemma_digits(n: nat)
    ensures
        digits(n).len() > 0,
        n > 0 ==> digits(n)[0] != '0',
        digits(10 * n).len() == digits(n).len() + (if n == 0 {
            0int
        } else {
            1int
        }),
    decreases n,
{
    if n >= 10 {
        lemma_digits(n / 10);
    }
    if n > 0 {
        assert((10 * n) / 10 == n);
    }
}

} // verus!
