//! Trimming, splitting and reading text.

use vstd::prelude::*;

use crate::numbers::{
    decimal, decimal_reads_back, digit, digits_value, integer_value, is_digit, is_digits,
    padded_decimal,
};
use crate::text::{
    after_word, first_position, first_word, lemma_first_position, lines, split, trim_end,
    trim_start, trimmed, white_space, word_len, TrimSet,
};

verus! {

/// Whether all characters of `s` are in `set`.
pub open spec fn all_in(s: Seq<char>, set: TrimSet) -> bool {
    forall|i: int| 0 <= i < s.len() ==> set.holds(#[trigger] s[i])
}

/// The sets of characters that are stripped.
pub proof fn trim_sets_hold_what_they_are_named_for(c: char)
    ensures
        TrimSet::Parentheses.holds(c) <==> c as u32 == 0x28 || c as u32 == 0x29,
        TrimSet::Quotes.holds(c) <==> c as u32 == 0x27 || c as u32 == 0x22 || c as u32 == 0x20,
        TrimSet::Tag.holds(c) <==> c as u32 == 0x3c || c as u32 == 0x7c || c as u32 == 0x3e,
        TrimSet::White.holds(c) <==> white_space(c),
{
}

/// White space is what Unicode gives the property `White_Space`: beyond ASCII, the next-line control,
/// the no-break spaces, the spaces of general punctuation, the line and paragraph separators, and
/// the spaces of Ogham and of ideographs.
pub proof fn white_space_is_that_of_unicode(c: char)
    requires
        c as u32 >= 128,
    ensures
        white_space(c) <==> c == '\u{85}' || c == '\u{a0}' || c == '\u{202f}' || c == '\u{1680}'
            || '\u{2000}' <= c <= '\u{200a}' || c == '\u{2028}' || c == '\u{2029}' || c
            == '\u{205f}' || c == '\u{3000}',
{
}

proof fn lemma_trim_start(s: Seq<char>, set: TrimSet) -> (a: int)
    ensures
        0 <= a <= s.len(),
        trim_start(s, set) == s.skip(a),
        all_in(s.take(a), set),
        a < s.len() ==> !set.holds(s[a]),
    decreases s.len(),
{
    if s.len() > 0 && set.holds(s[0]) {
        let rest = s.drop_first();
        let b = lemma_trim_start(rest, set);
        assert(rest.skip(b) =~= s.skip(b + 1));
        assert forall|i: int| 0 <= i < b + 1 implies set.holds(#[trigger] s.take(b + 1)[i]) by {
            if i > 0 {
                assert(s.take(b + 1)[i] == rest.take(b)[i - 1]);
            }
        }
        if b < rest.len() {
            assert(rest[b] == s[b + 1]);
        }
        b + 1
    } else {
        assert(s.skip(0) =~= s);
        0
    }
}

proof fn lemma_trim_end(s: Seq<char>, set: TrimSet) -> (b: int)
    ensures
        0 <= b <= s.len(),
        trim_end(s, set) == s.take(b),
        all_in(s.skip(b), set),
        b > 0 ==> !set.holds(s[b - 1]),
    decreases s.len(),
{
    if s.len() > 0 && set.holds(s.last()) {
        let rest = s.drop_last();
        let b = lemma_trim_end(rest, set);
        assert(rest.take(b) =~= s.take(b));
        assert forall|i: int| 0 <= i < s.len() - b implies set.holds(#[trigger] s.skip(b)[i]) by {
            if i < rest.len() - b {
                assert(s.skip(b)[i] == rest.skip(b)[i]);
            }
        }
        b
    } else {
        assert(s.take(s.len() as int) =~= s);
        s.len() as int
    }
}

/// Trimming cuts a text at two places, `a` and `b`: what lies before the one and behind the other
/// is all in the set, and what lies between them neither starts nor ends in it.
pub proof fn trimming_cuts_off_the_ends(s: Seq<char>, set: TrimSet) -> (r: (int, int))
    ensures
        0 <= r.0 <= r.1 <= s.len(),
        trimmed(s, set) == s.subrange(r.0, r.1),
        all_in(s.take(r.0), set),
        all_in(s.skip(r.1), set) || r.0 == s.len(),
        r.0 < r.1 ==> !set.holds(s[r.0]) && !set.holds(s[r.1 - 1]),
        r.0 == r.1 ==> all_in(s, set),
{
    let a = lemma_trim_start(s, set);
    let t = s.skip(a);
    let b = lemma_trim_end(t, set);
    assert(t.take(b) =~= s.subrange(a, a + b));
    assert(t.skip(b) =~= s.skip(a + b));
    if b > 0 {
        assert(t[b - 1] == s[a + b - 1]);
    } else {
        if a < s.len() {
            assert(t.skip(0)[0] == s[a]);
        }
        assert(s.take(a) =~= s);
    }
    (a, a + b)
}

/// Text that neither starts nor ends in the set, with characters of the set around it, is what
/// trimming leaves.
pub proof fn trimming_gives_back_the_middle(
    left: Seq<char>,
    middle: Seq<char>,
    right: Seq<char>,
    set: TrimSet,
)
    requires
        all_in(left, set),
        all_in(right, set),
        middle.len() > 0 ==> !set.holds(middle[0]) && !set.holds(middle.last()),
    ensures
        trimmed(left + middle + right, set) == middle,
{
    let s = left + middle + right;
    let r = trimming_cuts_off_the_ends(s, set);
    let (p, q) = (left.len() as int, (left.len() + middle.len()) as int);
    if middle.len() > 0 {
        assert(s[p] == middle[0] && s[q - 1] == middle.last());
        if r.0 == r.1 {
            assert(set.holds(s[p]));
        }
        if r.0 > p {
            assert(s.take(r.0)[p] == s[p]);
        }
        if r.0 < p {
            assert(left[r.0] == s[r.0]);
        }
        if r.1 < q {
            assert(s.skip(r.1)[q - 1 - r.1] == s[q - 1]);
        }
        if r.1 > q {
            assert(right[r.1 - 1 - q] == s[r.1 - 1]);
        }
    } else {
        assert forall|i: int| 0 <= i < s.len() implies set.holds(#[trigger] s[i]) by {
            if i < p {
                assert(s[i] == left[i]);
            } else {
                assert(s[i] == right[i - p]);
            }
        }
        if r.0 < r.1 {
            assert(set.holds(s[r.0]));
        }
    }
    assert(trimmed(s, set) =~= middle);
}

/// What is left of a part of a text that is not all stripped stands in what is left of the text.
pub proof fn trimmed_parts_stand_in_the_trimmed_text(
    left: Seq<char>,
    part: Seq<char>,
    right: Seq<char>,
    set: TrimSet,
) -> (i: int)
    requires
        trimmed(part, set).len() > 0,
    ensures
        0 <= i <= trimmed(left + part + right, set).len() - trimmed(part, set).len(),
        trimmed(left + part + right, set).subrange(i, i + trimmed(part, set).len()) == trimmed(
            part,
            set,
        ),
{
    let s = left + part + right;
    let r = trimming_cuts_off_the_ends(s, set);
    let q = trimming_cuts_off_the_ends(part, set);
    let (a, b) = (left.len() + q.0, left.len() + q.1);
    assert(s[a] == part[q.0] && s[b - 1] == part[q.1 - 1]);
    if r.0 == r.1 {
        assert(set.holds(s[a]));
    }
    if r.0 > a {
        assert(s.take(r.0)[a] == s[a]);
    }
    if r.1 < b {
        assert(s.skip(r.1)[b - 1 - r.1] == s[b - 1]);
    }
    assert(s.subrange(r.0, r.1).subrange(a - r.0, b - r.0) =~= part.subrange(q.0, q.1));
    a - r.0
}

/// The first word of a text is a run without white space, with nothing but white space before it,
/// and white space or nothing behind it.
pub proof fn words_end_at_white_space(white: Seq<char>, word: Seq<char>, rest: Seq<char>)
    requires
        all_in(white, TrimSet::White),
        forall|i: int| 0 <= i < word.len() ==> !white_space(#[trigger] word[i]),
        rest.len() > 0 ==> white_space(rest[0]),
        word.len() == 0 ==> rest.len() == 0,
    ensures
        first_word(white + word + rest) == word,
        after_word(white + word + rest) == rest,
{
    let s = white + word + rest;
    let a = lemma_trim_start(s, TrimSet::White);
    let n = white.len() as int;
    if a < n {
        assert(s[a] == white[a]);
    }
    if a > n {
        assert(s.take(a)[n] == s[n]);
        assert(word.len() > 0 ==> s[n] == word[0]);
    }
    let t = s.skip(a);
    assert(t =~= word + rest);
    lemma_word_len(word, rest);
    assert(t.take(word.len() as int) =~= word);
    assert(t.skip(word.len() as int) =~= rest);
}

proof fn lemma_word_len(word: Seq<char>, rest: Seq<char>)
    requires
        forall|i: int| 0 <= i < word.len() ==> !white_space(#[trigger] word[i]),
        rest.len() > 0 ==> white_space(rest[0]),
    ensures
        word_len(word + rest) == word.len(),
    decreases word.len(),
{
    let s = word + rest;
    if word.len() > 0 {
        let tail = word.drop_first();
        assert forall|i: int| 0 <= i < tail.len() implies !white_space(#[trigger] tail[i]) by {
            assert(tail[i] == word[i + 1]);
        }
        lemma_word_len(tail, rest);
        assert(s.drop_first() =~= tail + rest);
        assert(s[0] == word[0]);
    } else {
        assert(s =~= rest);
    }
}

/// The first separator stands behind what holds none.
proof fn lemma_separator(a: Seq<char>, c: char, b: Seq<char>)
    requires
        !a.contains(c),
    ensures
        first_position(a + seq![c] + b, c) == a.len(),
{
    let s = a + seq![c] + b;
    lemma_first_position(s, c);
    assert(s[a.len() as int] == c);
    let p = first_position(s, c) as int;
    if p < a.len() {
        assert(a[p] == s[p]);
    }
}

/// A text is split at every separator, and nowhere else: what stands before the first one is a part,
/// and what stands behind it is split as if it stood alone; a text without one is one part.
pub proof fn splitting_stops_at_separators(a: Seq<char>, c: char, b: Seq<char>)
    requires
        !a.contains(c),
    ensures
        split(a, c) == seq![a],
        split(a + seq![c] + b, c) == seq![a] + split(b, c),
{
    let s = a + seq![c] + b;
    lemma_separator(a, c, b);
    lemma_first_position(a, c);
    assert(s.take(a.len() as int) =~= a);
    assert(s.skip(a.len() as int + 1) =~= b);
}

/// A line ends at a line feed, with or without a carriage return before it, and nowhere else; what
/// follows is split as if it stood alone. What is left without a line feed is a line as it stands,
/// unless it is empty.
pub proof fn lines_end_at_line_feeds(a: Seq<char>, b: Seq<char>)
    requires
        !a.contains('\n'),
    ensures
        lines(Seq::<char>::empty()) == Seq::<Seq<char>>::empty(),
        a.len() > 0 ==> lines(a) == seq![a],
        a.len() == 0 || a.last() != '\r' ==> lines(a + seq!['\n'] + b) == seq![a] + lines(b),
        lines(a + seq!['\r', '\n'] + b) == seq![a] + lines(b),
{
    lemma_first_position(a, '\n');
    assert(lines(Seq::<char>::empty()) =~= Seq::<Seq<char>>::empty());
    lemma_separator(a, '\n', b);
    let s = a + seq!['\n'] + b;
    assert(s.take(a.len() as int) =~= a);
    assert(s.skip(a.len() as int + 1) =~= b);
    let r = a.push('\r');
    let t = a + seq!['\r', '\n'] + b;
    assert(t =~= r + seq!['\n'] + b);
    assert(!r.contains('\n')) by {
        if r.contains('\n') {
            let i = choose|i: int| 0 <= i < r.len() && r[i] == '\n';
            assert(a[i] == '\n');
        }
    }
    lemma_separator(r, '\n', b);
    assert(t.take(r.len() as int) =~= r);
    assert(t.skip(r.len() as int + 1) =~= b);
    assert(r.drop_last() =~= a);
}

// Numbers.

/// A digit is written as the character at its place behind `0`, and a number of more digits as the
/// number without its last digit, with that digit behind it.
pub proof fn numbers_are_written_to_the_base_of_ten(n: nat, d: nat)
    requires
        d < 10,
    ensures
        decimal(d) == seq![('0' as u32 + d) as char],
        n > 0 ==> decimal(10 * n + d) == decimal(n).push(('0' as u32 + d) as char),
{
}

/// A number that is written to a width has that many characters, with zeros before it where it is
/// shorter.
pub proof fn padding_fills_with_zeros(n: nat, width: nat)
    ensures
        padded_decimal(n, width).len() == width,
        padded_decimal(0, width) == Seq::new(width, |i: int| '0'),
        width > 0 && n < 10 ==> padded_decimal(n, width) == Seq::new(
            (width - 1) as nat,
            |i: int| '0',
        ) + decimal(n),
        width > 0 && n >= 10 ==> padded_decimal(n, width) == padded_decimal(
            n / 10,
            (width - 1) as nat,
        ) + decimal(n % 10),
    decreases width,
{
    if width > 0 {
        padding_fills_with_zeros(n / 10, (width - 1) as nat);
        assert(padded_decimal(0, width) =~= Seq::new(width, |i: int| '0'));
        if n < 10 {
            padding_fills_with_zeros(0, (width - 1) as nat);
            assert(padded_decimal(n, width) =~= Seq::new((width - 1) as nat, |i: int| '0')
                + decimal(n));
        } else {
            assert(padded_decimal(n, width) =~= padded_decimal(n / 10, (width - 1) as nat)
                + decimal(n % 10));
        }
    } else {
        assert(padded_decimal(0, width) =~= Seq::new(width, |i: int| '0'));
    }
}

/// A number reads back with a `+` before it; with a `-` before it, where signs are allowed, it reads
/// as its negative, and else as nothing.
pub proof fn signs_are_read(n: nat)
    ensures
        integer_value(seq!['+'] + decimal(n), false) == Some(n as int),
        integer_value(seq!['+'] + decimal(n), true) == Some(n as int),
        integer_value(seq!['-'] + decimal(n), true) == Some(-(n as int)),
        integer_value(seq!['-'] + decimal(n), false) is None,
{
    decimal_reads_back(n);
    let p = seq!['+'] + decimal(n);
    let m = seq!['-'] + decimal(n);
    assert(p.skip(1) =~= decimal(n));
    assert(m.skip(1) =~= decimal(n));
    assert(!is_digit(m[0]));
}

/// Only digits are read, behind at most one sign; and the empty text is no number.
pub proof fn only_digits_are_read(s: Seq<char>, signed: bool, i: int)
    requires
        integer_value(s, signed) is Some,
        0 <= i < s.len(),
    ensures
        s.len() > 0,
        i > 0 ==> 48 <= s[i] as u32 <= 57,
        i == 0 ==> 48 <= s[i] as u32 <= 57 || ((s[i] == '+' || (signed && s[i] == '-')) && s.len()
            > 1),
{
    let sign = s[0] == '+' || (signed && s[0] == '-');
    if sign {
        assert(is_digits(s.skip(1)));
        if i > 0 {
            assert(s.skip(1)[i - 1] == s[i]);
        }
    } else {
        assert(is_digits(s));
    }
}

/// The empty text is no number.
pub proof fn nothing_is_no_number(signed: bool)
    ensures
        integer_value(Seq::<char>::empty(), signed) is None,
{
}

/// One more digit behind a number makes it ten times as large, and adds the digit.
pub proof fn digits_count_tenfold(s: Seq<char>, d: nat)
    requires
        d < 10,
        is_digits(s),
    ensures
        integer_value(s.push(('0' as u32 + d) as char), false) == Some(10 * integer_value(s, false)->0 + d),
{
    let c = ('0' as u32 + d) as char;
    let t = s.push(c);
    assert(t.drop_last() =~= s);
    assert(c == digit(d));
    assert forall|i: int| 0 <= i < t.len() implies is_digit(#[trigger] t[i]) by {
        if i < s.len() {
            assert(t[i] == s[i]);
        }
    }
    assert(is_digit(s[0]));
    assert(t[0] == s[0]);
    assert(digits_value(t) == digits_value(s) * 10 + d);
}

} // verus!
