//! Characters and strings: conversion, trimming, splitting, searching and UTF-8.

use vstd::prelude::*;
use vstd::utf8::*;

verus! {

/// `String::push` appends one character.
pub assume_specification[ String::push ](s: &mut String, c: char)
    ensures
        final(s)@ == old(s)@.push(c),
;

/// The characters of a string.
pub fn chars_of(s: &str) -> (r: Vec<char>)
    ensures
        r@ == s@,
{
    let mut r: Vec<char> = Vec::new();
    for c in it: s.chars()
        invariant
            it.seq() == s@,
            r@ == s@.take(it.index() as int),
    {
        r.push(c);
        assert(r@ =~= s@.take(it.index() + 1));
    }
    assert(s@.take(s@.len() as int) =~= s@);
    r
}

/// The string made of the given characters.
pub fn string_of(chars: &[char]) -> (r: String)
    ensures
        r@ == chars@,
{
    let mut r = String::new();
    let mut i: usize = 0;
    while i < chars.len()
        invariant
            i <= chars@.len(),
            r@ == chars@.take(i as int),
        decreases chars@.len() - i,
    {
        r.push(chars[i]);
        i += 1;
        assert(r@ =~= chars@.take(i as int));
    }
    assert(chars@.take(chars@.len() as int) =~= chars@);
    r
}

/// The characters with the Unicode property `White_Space`.
pub open spec fn white_space(c: char) -> bool {
    let u = c as u32;
    ||| 0x9 <= u <= 0xd
    ||| u == 0x20
    ||| u == 0x85
    ||| u == 0xa0
    ||| u == 0x1680
    ||| 0x2000 <= u <= 0x200a
    ||| u == 0x2028
    ||| u == 0x2029
    ||| u == 0x202f
    ||| u == 0x205f
    ||| u == 0x3000
}

/// Whether `c` has the Unicode property `White_Space`.
pub fn is_white_space(c: char) -> (r: bool)
    ensures
        r == white_space(c),
{
    let u: u32 = c as u32;
    (0x9 <= u && u <= 0xd) || u == 0x20 || u == 0x85 || u == 0xa0 || u == 0x1680 || (0x2000 <= u
        && u <= 0x200a) || u == 0x2028 || u == 0x2029 || u == 0x202f || u == 0x205f || u == 0x3000
}

/// A set of characters that is stripped from both ends of a string.
#[derive(Clone, Copy, Debug, PartialEq, Eq, Structural)]
pub enum TrimSet {
    /// Unicode white space.
    White,
    /// `(` and `)`.
    Parentheses,
    /// `'`, `"` and the space.
    Quotes,
    /// `<`, `|` and `>`.
    Tag,
}

impl TrimSet {
    /// Whether `c` is in the set.
    pub open spec fn holds(self, c: char) -> bool {
        match self {
            TrimSet::White => white_space(c),
            TrimSet::Parentheses => c == '(' || c == ')',
            TrimSet::Quotes => c == '\'' || c == '"' || c == ' ',
            TrimSet::Tag => c == '<' || c == '|' || c == '>',
        }
    }

    /// Whether `c` is in the set.
    pub fn contains(self, c: char) -> (r: bool)
        ensures
            r == self.holds(c),
    {
        match self {
            TrimSet::White => is_white_space(c),
            TrimSet::Parentheses => c == '(' || c == ')',
            TrimSet::Quotes => c == '\'' || c == '"' || c == ' ',
            TrimSet::Tag => c == '<' || c == '|' || c == '>',
        }
    }
}

/// `s` without its longest prefix of characters of `set`.
pub open spec fn trim_start(s: Seq<char>, set: TrimSet) -> Seq<char>
    decreases s.len(),
{
    if s.len() > 0 && set.holds(s[0]) {
        trim_start(s.drop_first(), set)
    } else {
        s
    }
}

/// `s` without its longest suffix of characters of `set`.
pub open spec fn trim_end(s: Seq<char>, set: TrimSet) -> Seq<char>
    decreases s.len(),
{
    if s.len() > 0 && set.holds(s.last()) {
        trim_end(s.drop_last(), set)
    } else {
        s
    }
}

/// `s` without its characters of `set` at both ends.
pub open spec fn trimmed(s: Seq<char>, set: TrimSet) -> Seq<char> {
    trim_end(trim_start(s, set), set)
}

/// Strips the characters of `set` from both ends of `s`.
pub fn trim(s: &[char], set: TrimSet) -> (r: &[char])
    ensures
        r@ == trimmed(s@, set),
{
    let mut a: usize = 0;
    assert(s@.skip(0) =~= s@);
    while a < s.len() && set.contains(s[a])
        invariant
            a <= s@.len(),
            trim_start(s@.skip(a as int), set) == trim_start(s@, set),
        decreases s@.len() - a,
    {
        assert(s@.skip(a as int).drop_first() =~= s@.skip(a + 1));
        a += 1;
    }
    let mut b: usize = s.len();
    assert(s@.subrange(a as int, b as int) =~= s@.skip(a as int));
    while b > a && set.contains(s[b - 1])
        invariant
            a <= b <= s@.len(),
            trim_end(s@.subrange(a as int, b as int), set) == trimmed(s@, set),
        decreases b,
    {
        assert(s@.subrange(a as int, b as int).drop_last() =~= s@.subrange(a as int, b - 1));
        b -= 1;
    }
    &s[a..b]
}

/// The position of the first `c` in `s`, or the length of `s` where there is none.
pub open spec fn first_position(s: Seq<char>, c: char) -> nat
    decreases s.len(),
{
    if s.len() == 0 || s[0] == c {
        0
    } else {
        1 + first_position(s.drop_first(), c)
    }
}

/// What `first_position` means: the first `c` stands there, or nowhere.
pub proof fn lemma_first_position(s: Seq<char>, c: char)
    ensures
        first_position(s, c) <= s.len(),
        first_position(s, c) < s.len() ==> s[first_position(s, c) as int] == c,
        forall|i: int| 0 <= i < first_position(s, c) ==> s[i] != c,
        s.contains(c) <==> first_position(s, c) < s.len(),
    decreases s.len(),
{
    if s.len() > 0 && s[0] != c {
        let rest = s.drop_first();
        lemma_first_position(rest, c);
        assert forall|i: int| 0 <= i < first_position(s, c) implies s[i] != c by {
            if i > 0 {
                assert(s[i] == rest[i - 1]);
            }
        }
        if s.contains(c) {
            let i = choose|i: int| 0 <= i < s.len() && s[i] == c;
            assert(rest[i - 1] == c);
        }
    }
}

/// Finds the first `c` in `s`; the length of `s` where there is none.
pub fn find_char(s: &[char], c: char) -> (r: usize)
    ensures
        r == first_position(s@, c),
        r <= s@.len(),
{
    let mut i: usize = 0;
    assert(s@.skip(0) =~= s@);
    while i < s.len() && s[i] != c
        invariant
            i <= s@.len(),
            first_position(s@, c) == i + first_position(s@.skip(i as int), c),
        decreases s@.len() - i,
    {
        assert(s@.skip(i as int).drop_first() =~= s@.skip(i + 1));
        i += 1;
    }
    i
}

/// The parts of `s` between the separators `c`: one more than there are separators.
pub open spec fn split(s: Seq<char>, c: char) -> Seq<Seq<char>>
    decreases s.len(),
{
    let p = first_position(s, c) as int;
    if p < s.len() {
        seq![s.take(p)] + split(s.skip(p + 1), c)
    } else {
        seq![s]
    }
}

/// Splits `s` at every `c`.
pub fn split_at_char(s: &[char], c: char) -> (r: Vec<Vec<char>>)
    ensures
        r@.len() == split(s@, c).len(),
        forall|i: int| 0 <= i < r@.len() ==> (#[trigger] r@[i])@ == split(s@, c)[i],
{
    let mut r: Vec<Vec<char>> = Vec::new();
    let mut start: usize = 0;
    assert(s@.skip(0) =~= s@);
    let ghost whole = split(s@, c);
    loop
        invariant
            start <= s@.len(),
            whole == split(s@, c),
            whole.len() == r@.len() + split(s@.skip(start as int), c).len(),
            forall|i: int| 0 <= i < r@.len() ==> (#[trigger] r@[i])@ == whole[i],
            forall|i: int|
                0 <= i < split(s@.skip(start as int), c).len() ==> whole[r@.len() + i]
                    == #[trigger] split(s@.skip(start as int), c)[i],
        decreases s@.len() - start,
    {
        let rest = &s[start..s.len()];
        let ghost tail = split(s@.skip(start as int), c);
        assert(rest@ =~= s@.skip(start as int));
        let p: usize = find_char(rest, c);
        let part = slice_to_vec(&rest[0..p]);
        assert(part@ =~= rest@.take(p as int));
        assert(whole[r@.len() as int] == tail[0]);
        if p == rest.len() {
            assert(part@ =~= rest@);
            r.push(part);
            return r;
        }
        r.push(part);
        let ghost next = split(s@.skip(start + p + 1), c);
        assert(rest@.skip(p + 1) =~= s@.skip(start + p + 1));
        assert forall|i: int| 0 <= i < next.len() implies whole[r@.len() + i] == #[trigger] next[i] by {
            assert(whole[(r@.len() - 1) + (i + 1)] == tail[i + 1]);
        }
        start = start + p + 1;
    }
}

/// A vector with the elements of a slice.
pub fn slice_to_vec<T: Copy>(s: &[T]) -> (r: Vec<T>)
    ensures
        r@ == s@,
{
    let mut r: Vec<T> = Vec::new();
    let mut i: usize = 0;
    while i < s.len()
        invariant
            i <= s@.len(),
            r@ == s@.take(i as int),
        decreases s@.len() - i,
    {
        r.push(s[i]);
        i += 1;
        assert(r@ =~= s@.take(i as int));
    }
    assert(s@.take(s@.len() as int) =~= s@);
    r
}

/// `line` without one carriage return at its end.
pub open spec fn without_return(line: Seq<char>) -> Seq<char> {
    if line.len() > 0 && line.last() == '\r' {
        line.drop_last()
    } else {
        line
    }
}

/// The lines of `s`: each ends at a line feed, which is not part of it, nor is a carriage return
/// right before it. What follows the last line feed is a line too, unless it is empty.
pub open spec fn lines(s: Seq<char>) -> Seq<Seq<char>>
    decreases s.len(),
{
    let p = first_position(s, '\n') as int;
    if s.len() == 0 {
        seq![]
    } else if p < s.len() {
        seq![without_return(s.take(p))] + lines(s.skip(p + 1))
    } else {
        seq![s]
    }
}

/// Splits a text off its first line, and says what follows.
pub fn next_line(s: &[char]) -> (r: (&[char], &[char]))
    requires
        s@.len() > 0,
    ensures
        lines(s@) == seq![r.0@] + lines(r.1@),
        r.1@.len() < s@.len(),
{
    let p: usize = find_char(s, '\n');
    if p < s.len() {
        let line = &s[0..p];
        let rest = &s[p + 1..s.len()];
        assert(line@ =~= s@.take(p as int));
        assert(rest@ =~= s@.skip(p + 1));
        if p > 0 && line[p - 1] == '\r' {
            let bare = &s[0..p - 1];
            assert(bare@ =~= line@.drop_last());
            (bare, rest)
        } else {
            (line, rest)
        }
    } else {
        let rest = &s[p..p];
        assert(lines(rest@) =~= Seq::<Seq<char>>::empty());
        assert(seq![s@] + lines(rest@) =~= seq![s@]);
        (s, rest)
    }
}

/// The length of the longest prefix of `s` without white space.
pub open spec fn word_len(s: Seq<char>) -> nat
    decreases s.len(),
{
    if s.len() == 0 || white_space(s[0]) {
        0
    } else {
        1 + word_len(s.drop_first())
    }
}

/// The first word of `s`, a longest run without white space; empty where there is none.
pub open spec fn first_word(s: Seq<char>) -> Seq<char> {
    let t = trim_start(s, TrimSet::White);
    t.take(word_len(t) as int)
}

/// What follows the first word of `s`.
pub open spec fn after_word(s: Seq<char>) -> Seq<char> {
    let t = trim_start(s, TrimSet::White);
    t.skip(word_len(t) as int)
}

/// Splits a text behind its first word.
pub fn next_word(s: &[char]) -> (r: (&[char], &[char]))
    ensures
        r.0@ == first_word(s@),
        r.1@ == after_word(s@),
{
    let mut a: usize = 0;
    assert(s@.skip(0) =~= s@);
    while a < s.len() && is_white_space(s[a])
        invariant
            a <= s@.len(),
            trim_start(s@.skip(a as int), TrimSet::White) == trim_start(s@, TrimSet::White),
        decreases s@.len() - a,
    {
        assert(s@.skip(a as int).drop_first() =~= s@.skip(a + 1));
        a += 1;
    }
    let ghost t = s@.skip(a as int);
    assert(t == trim_start(s@, TrimSet::White));
    let mut b: usize = a;
    while b < s.len() && !is_white_space(s[b])
        invariant
            a <= b <= s@.len(),
            word_len(s@.skip(a as int)) == b - a + word_len(s@.skip(b as int)),
        decreases s@.len() - b,
    {
        assert(s@.skip(b as int).drop_first() =~= s@.skip(b + 1));
        b += 1;
    }
    let word = &s[a..b];
    let rest = &s[b..s.len()];
    assert(word@ =~= t.take(b - a));
    assert(rest@ =~= t.skip(b - a));
    (word, rest)
}

/// Compares two runs of characters.
pub fn same_chars(a: &[char], b: &[char]) -> (r: bool)
    ensures
        r == (a@ == b@),
{
    if a.len() != b.len() {
        return false;
    }
    let mut i: usize = 0;
    while i < a.len()
        invariant
            i <= a@.len(),
            a@.len() == b@.len(),
            a@.take(i as int) == b@.take(i as int),
        decreases a@.len() - i,
    {
        if a[i] != b[i] {
            return false;
        }
        i += 1;
        assert(a@.take(i as int) =~= a@.take(i - 1).push(a@[i - 1]));
        assert(b@.take(i as int) =~= b@.take(i - 1).push(b@[i - 1]));
    }
    assert(a@.take(i as int) =~= a@);
    assert(b@.take(i as int) =~= b@);
    true
}

/// Compares two runs of bytes.
pub fn same_bytes(a: &[u8], b: &[u8]) -> (r: bool)
    ensures
        r == (a@ == b@),
{
    if a.len() != b.len() {
        return false;
    }
    let mut i: usize = 0;
    while i < a.len()
        invariant
            i <= a@.len(),
            a@.len() == b@.len(),
            a@.take(i as int) == b@.take(i as int),
        decreases a@.len() - i,
    {
        if a[i] != b[i] {
            return false;
        }
        i += 1;
        assert(a@.take(i as int) =~= a@.take(i - 1).push(a@[i - 1]));
        assert(b@.take(i as int) =~= b@.take(i - 1).push(b@[i - 1]));
    }
    assert(a@.take(i as int) =~= a@);
    assert(b@.take(i as int) =~= b@);
    true
}

/// Compares two strings.
pub fn same_text(a: &str, b: &str) -> (r: bool)
    ensures
        r == (a@ == b@),
{
    let r = same_bytes(a.as_bytes(), b.as_bytes());
    proof {
        encode_utf8_decode_utf8(a@);
        encode_utf8_decode_utf8(b@);
    }
    r
}

/// Where `part` first stands in `s`.
pub open spec fn first_occurrence(s: Seq<char>, part: Seq<char>) -> Option<nat>
    decreases s.len(),
{
    if s.len() < part.len() {
        None
    } else if s.take(part.len() as int) == part {
        Some(0)
    } else if s.len() == 0 {
        None
    } else {
        match first_occurrence(s.drop_first(), part) {
            Some(i) => Some(i + 1),
            None => None,
        }
    }
}

/// What `first_occurrence` means: `part` stands there, and nowhere before.
pub proof fn lemma_first_occurrence(s: Seq<char>, part: Seq<char>)
    ensures
        match first_occurrence(s, part) {
            Some(i) => i + part.len() <= s.len() && s.subrange(i as int, (i + part.len()) as int) == part
                && forall|j: int| 0 <= j < i ==> #[trigger] s.subrange(j, j + part.len()) != part,
            None => forall|j: int|
                0 <= j <= s.len() - part.len() ==> #[trigger] s.subrange(j, j + part.len()) != part,
        },
    decreases s.len(),
{
    let n = part.len() as int;
    if s.len() >= n {
        assert(s.take(n) =~= s.subrange(0, n));
        if s.take(n) != part && s.len() > 0 {
            let rest = s.drop_first();
            lemma_first_occurrence(rest, part);
            assert forall|j: int| 0 < j <= s.len() - n implies #[trigger] s.subrange(j, j + n)
                == rest.subrange(j - 1, j - 1 + n) by {
                assert(s.subrange(j, j + n) =~= rest.subrange(j - 1, j - 1 + n));
            }
        }
    }
}

/// Finds the first place where `part` stands in `s`.
pub fn find_text(s: &[char], part: &[char]) -> (r: Option<usize>)
    ensures
        match r {
            Some(i) => first_occurrence(s@, part@) == Some(i as nat),
            None => first_occurrence(s@, part@) is None,
        },
        r matches Some(i) ==> i + part@.len() <= s@.len(),
{
    let n: usize = part.len();
    let mut i: usize = 0;
    assert(s@.skip(0) =~= s@);
    while n <= s.len() - i
        invariant
            n == part@.len(),
            i <= s@.len(),
            match first_occurrence(s@.skip(i as int), part@) {
                Some(k) => first_occurrence(s@, part@) == Some((i + k) as nat),
                None => first_occurrence(s@, part@) is None,
            },
        decreases s@.len() - i,
    {
        assert(s@.subrange(i as int, i + n) =~= s@.skip(i as int).take(n as int));
        if same_chars(&s[i..i + n], part) {
            return Some(i);
        }
        if i == s.len() {
            return None;
        }
        assert(s@.skip(i as int).drop_first() =~= s@.skip(i + 1));
        i += 1;
    }
    None
}

/// Whether `part` stands somewhere in `s`.
pub open spec fn contains_text(s: Seq<char>, part: Seq<char>) -> bool {
    first_occurrence(s, part) is Some
}

/// The UTF-8 form of a concatenation is the concatenation of the UTF-8 forms.
pub proof fn utf8_of_concatenation(a: Seq<char>, b: Seq<char>)
    ensures
        encode_utf8(a + b) == encode_utf8(a) + encode_utf8(b),
    decreases a.len(),
{
    if a.len() == 0 {
        assert(a + b =~= b);
        assert(encode_utf8(a) + encode_utf8(b) =~= encode_utf8(b));
    } else {
        assert((a + b).drop_first() =~= a.drop_first() + b);
        utf8_of_concatenation(a.drop_first(), b);
        assert(encode_utf8(a + b) =~= encode_utf8(a) + encode_utf8(b));
    }
}

/// Two texts with the same UTF-8 form are the same text.
pub proof fn utf8_is_injective(a: Seq<char>, b: Seq<char>)
    requires
        encode_utf8(a) == encode_utf8(b),
    ensures
        a == b,
{
    encode_utf8_decode_utf8(a);
    encode_utf8_decode_utf8(b);
}

/// What follows UTF-8 in UTF-8 is UTF-8, and the text of both is that of the one behind that of the
/// other.
pub proof fn utf8_behind_utf8(a: Seq<u8>, b: Seq<u8>)
    requires
        valid_utf8(a),
        valid_utf8(a + b),
    ensures
        valid_utf8(b),
        decode_utf8(a + b) == decode_utf8(a) + decode_utf8(b),
    decreases a.len(),
{
    if a.len() == 0 {
        assert(a + b =~= b);
        assert(decode_utf8(a) + decode_utf8(b) =~= decode_utf8(b));
    } else {
        let n = length_of_first_scalar(a);
        assert(length_of_first_scalar(a + b) == n);
        assert(decode_first_scalar(a + b) == decode_first_scalar(a));
        assert(pop_first_scalar(a + b) =~= pop_first_scalar(a) + b);
        utf8_behind_utf8(pop_first_scalar(a), b);
        assert(decode_utf8(a + b) =~= decode_utf8(a) + decode_utf8(b));
    }
}

/// An ASCII byte in the UTF-8 form of a text is a character of the text.
pub proof fn ascii_byte_is_a_character(s: Seq<char>, i: int)
    requires
        0 <= i < encode_utf8(s).len(),
        encode_utf8(s)[i] < 0x80,
    ensures
        exists|j: int| 0 <= j < s.len() && #[trigger] s[j] as u32 == encode_utf8(s)[i],
    decreases s.len(),
{
    let c = s[0] as u32;
    let head = encode_scalar(c);
    if i < head.len() {
        assert(encode_utf8(s)[i] == head[i]);
        if has_width_1_encoding(c) {
            assert(leading_byte_width_1(c) == c) by (bit_vector)
                requires
                    has_width_1_encoding(c),
            ;
            assert(s[0] as u32 == encode_utf8(s)[i]);
        } else {
            assert(leading_byte_width_2(c) >= 0x80) by (bit_vector);
            assert(leading_byte_width_3(c) >= 0x80) by (bit_vector);
            assert(leading_byte_width_4(c) >= 0x80) by (bit_vector);
            assert(last_continuation_byte(c) >= 0x80) by (bit_vector);
            assert(second_last_continuation_byte(c) >= 0x80) by (bit_vector);
            assert(third_last_continuation_byte(c) >= 0x80) by (bit_vector);
        }
    } else {
        let rest = s.drop_first();
        assert(encode_utf8(s)[i] == encode_utf8(rest)[i - head.len()]);
        ascii_byte_is_a_character(rest, i - head.len());
        let j = choose|j: int|
            0 <= j < rest.len() && #[trigger] rest[j] as u32 == encode_utf8(rest)[i - head.len()];
        assert(s[j + 1] as u32 == encode_utf8(s)[i]);
    }
}

} // verus!
