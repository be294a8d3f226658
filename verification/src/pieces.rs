//! Splitting text into the pieces that byte-pair encoding works on.
//!
//! The split is that of the pattern
//!
//! ```text
//! 's|'t|'re|'ve|'m|'ll|'d| ?\p{L}+| ?\p{N}+| ?[^\s\p{L}\p{N}]+|\s+(?!\S)|\s+
//! ```
//!
//! whose alternatives are tried in order at each position. Letters and numbers are the characters
//! of `char::is_alphabetic` and `char::is_numeric`.

use vstd::prelude::*;

use crate::text::{chars_of, is_white_space, string_of, white_space};
use crate::unicode::{alphabetic, ascii_letter, numeric};

verus! {

/// The kinds of characters that make up a piece, in the order in which they are tried.
#[derive(Clone, Copy, Debug, PartialEq, Eq, Structural)]
pub enum CharClass {
    Letter,
    Number,
    /// Neither white space, nor a letter, nor a number.
    Symbol,
}

impl CharClass {
    /// Whether `c` is of this kind.
    pub open spec fn holds(self, c: char) -> bool {
        match self {
            CharClass::Letter => alphabetic(c),
            CharClass::Number => numeric(c),
            CharClass::Symbol => !white_space(c) && !alphabetic(c) && !numeric(c),
        }
    }

    /// Whether `c` is of this kind.
    pub fn contains(self, c: char) -> (r: bool)
        ensures
            r == self.holds(c),
    {
        match self {
            CharClass::Letter => c.is_alphabetic(),
            CharClass::Number => c.is_numeric(),
            CharClass::Symbol => !is_white_space(c) && !c.is_alphabetic() && !c.is_numeric(),
        }
    }
}

/// The length of the contraction that `s` starts with; 0 where it starts with none.
/// The contractions are in lower case only.
pub open spec fn contraction_len(s: Seq<char>) -> nat {
    if s.len() >= 3 && s[0] == '\'' && ((s[1] == 'r' && s[2] == 'e') || (s[1] == 'v' && s[2] == 'e')
        || (s[1] == 'l' && s[2] == 'l')) {
        3
    } else if s.len() >= 2 && s[0] == '\'' && (s[1] == 's' || s[1] == 't' || s[1] == 'm' || s[1]
        == 'd') {
        2
    } else {
        0
    }
}

/// The length of the longest prefix of `s` in `class`.
pub open spec fn run_len(s: Seq<char>, class: CharClass) -> nat
    decreases s.len(),
{
    if s.len() == 0 || !class.holds(s[0]) {
        0
    } else {
        1 + run_len(s.drop_first(), class)
    }
}

/// The length of the run of `class` that `s` starts with, with one space before it where there
/// is one; 0 where there is no such run.
pub open spec fn spaced_run_len(s: Seq<char>, class: CharClass) -> nat {
    if s.len() >= 2 && s[0] == ' ' && class.holds(s[1]) {
        1 + run_len(s.skip(1), class)
    } else {
        run_len(s, class)
    }
}

/// The length of the longest prefix of `s` of white space.
pub open spec fn white_len(s: Seq<char>) -> nat
    decreases s.len(),
{
    if s.len() == 0 || !white_space(s[0]) {
        0
    } else {
        1 + white_len(s.drop_first())
    }
}

/// The length of the piece that a nonempty `s` starts with.
///
/// White space that other text follows leaves its last character to the next piece, unless it is
/// that one character.
pub open spec fn piece_len(s: Seq<char>) -> nat {
    if contraction_len(s) > 0 {
        contraction_len(s)
    } else if spaced_run_len(s, CharClass::Letter) > 0 {
        spaced_run_len(s, CharClass::Letter)
    } else if spaced_run_len(s, CharClass::Number) > 0 {
        spaced_run_len(s, CharClass::Number)
    } else if spaced_run_len(s, CharClass::Symbol) > 0 {
        spaced_run_len(s, CharClass::Symbol)
    } else if white_len(s) == s.len() || white_len(s) <= 1 {
        white_len(s)
    } else {
        (white_len(s) - 1) as nat
    }
}

/// A piece is not empty and stays within the text.
pub proof fn piece_len_in_range(s: Seq<char>)
    requires
        s.len() > 0,
    ensures
        1 <= piece_len(s) <= s.len(),
{
    lemma_run(s, CharClass::Letter);
    lemma_run(s, CharClass::Number);
    lemma_run(s, CharClass::Symbol);
    lemma_run(s.skip(1), CharClass::Letter);
    lemma_run(s.skip(1), CharClass::Number);
    lemma_run(s.skip(1), CharClass::Symbol);
    lemma_white_run(s);
}

/// The pieces of `s`, in order.
pub open spec fn pieces(s: Seq<char>) -> Seq<Seq<char>>
    decreases s.len(),
{
    if s.len() == 0 {
        seq![]
    } else {
        proof {
            piece_len_in_range(s);
        }
        seq![s.take(piece_len(s) as int)] + pieces(s.skip(piece_len(s) as int))
    }
}

/// The pieces of a text, put together, are the text; and none of them is empty.
pub proof fn pieces_make_up_the_text(s: Seq<char>)
    ensures
        pieces(s).flatten() == s,
        forall|i: int| 0 <= i < pieces(s).len() ==> (#[trigger] pieces(s)[i]).len() > 0,
    decreases s.len(),
{
    if s.len() == 0 {
        assert(pieces(s).flatten() =~= s);
    } else {
        piece_len_in_range(s);
        let n = piece_len(s) as int;
        let rest = pieces(s.skip(n));
        pieces_make_up_the_text(s.skip(n));
        assert(pieces(s).drop_first() =~= rest);
        assert(pieces(s).flatten() =~= s.take(n) + s.skip(n));
        assert(s.take(n) + s.skip(n) =~= s);
        assert forall|i: int| 0 <= i < pieces(s).len() implies (#[trigger] pieces(s)[i]).len()
            > 0 by {
            if i > 0 {
                assert(pieces(s)[i] == rest[i - 1]);
            }
        }
    }
}

proof fn lemma_run(s: Seq<char>, class: CharClass)
    ensures
        run_len(s, class) <= s.len(),
        forall|i: int| 0 <= i < run_len(s, class) ==> class.holds(#[trigger] s[i]),
    decreases s.len(),
{
    if s.len() > 0 && class.holds(s[0]) {
        let rest = s.drop_first();
        lemma_run(rest, class);
        assert forall|i: int| 0 <= i < run_len(s, class) implies class.holds(#[trigger] s[i]) by {
            if i > 0 {
                assert(s[i] == rest[i - 1]);
            }
        }
    }
}

proof fn lemma_spaced_run(s: Seq<char>, class: CharClass)
    ensures
        spaced_run_len(s, class) <= s.len(),
        forall|i: int|
            0 <= i < spaced_run_len(s, class) ==> class.holds(#[trigger] s[i]) || s[i] == ' ',
{
    lemma_run(s, class);
    lemma_run(s.skip(1), class);
    assert forall|i: int| 0 <= i < spaced_run_len(s, class) implies class.holds(#[trigger] s[i])
        || s[i] == ' ' by {
        if i > 0 && s.len() >= 2 && s[0] == ' ' && class.holds(s[1]) {
            assert(s[i] == s.skip(1)[i - 1]);
        }
    }
}

proof fn lemma_white_run(s: Seq<char>)
    ensures
        white_len(s) <= s.len(),
        forall|i: int| 0 <= i < white_len(s) ==> white_space(#[trigger] s[i]),
    decreases s.len(),
{
    if s.len() > 0 && white_space(s[0]) {
        let rest = s.drop_first();
        lemma_white_run(rest);
        assert forall|i: int| 0 <= i < white_len(s) implies white_space(#[trigger] s[i]) by {
            if i > 0 {
                assert(s[i] == rest[i - 1]);
            }
        }
    }
}

/// Whether `c` is an ASCII letter or digit.
pub open spec fn ascii_alphanumeric(c: char) -> bool {
    ascii_letter(c) || '0' as u32 <= c as u32 <= '9' as u32
}

/// Whether `s` holds a `<` and also an ASCII letter or digit.
pub open spec fn mixes(s: Seq<char>) -> bool {
    &&& exists|i: int| 0 <= i < s.len() && #[trigger] s[i] == '<'
    &&& exists|i: int| 0 <= i < s.len() && ascii_alphanumeric(#[trigger] s[i])
}

proof fn lemma_first_piece_is_pure(s: Seq<char>)
    requires
        s.len() > 0,
    ensures
        !mixes(s.take(piece_len(s) as int)),
{
    let p = s.take(piece_len(s) as int);
    piece_len_in_range(s);
    lemma_spaced_run(s, CharClass::Letter);
    lemma_spaced_run(s, CharClass::Number);
    lemma_spaced_run(s, CharClass::Symbol);
    lemma_white_run(s);
    assert forall|i: int| 0 <= i < p.len() implies #[trigger] p[i] == s[i] by {}
    if contraction_len(s) == 0 && spaced_run_len(s, CharClass::Letter) == 0 && spaced_run_len(
        s,
        CharClass::Number,
    ) == 0 && spaced_run_len(s, CharClass::Symbol) > 0 {
        assert forall|i: int| 0 <= i < p.len() implies !ascii_alphanumeric(#[trigger] p[i]) by {
            assert(CharClass::Symbol.holds(s[i]) || s[i] == ' ');
        }
    } else {
        assert forall|i: int| 0 <= i < p.len() implies #[trigger] p[i] != '<' by {
            assert(p[i] == s[i]);
        }
    }
}

/// No piece holds a `<` together with an ASCII letter or digit.
pub proof fn pieces_do_not_mix(s: Seq<char>, i: int)
    requires
        0 <= i < pieces(s).len(),
    ensures
        !mixes(pieces(s)[i]),
    decreases s.len(),
{
    piece_len_in_range(s);
    lemma_first_piece_is_pure(s);
    if i > 0 {
        let rest = s.skip(piece_len(s) as int);
        assert(pieces(s)[i] == pieces(rest)[i - 1]);
        pieces_do_not_mix(rest, i - 1);
    }
}

/// The length of the contraction at the start of `s`.
fn contraction(s: &[char]) -> (r: usize)
    ensures
        r == contraction_len(s@),
{
    if s.len() >= 3 && s[0] == '\'' && ((s[1] == 'r' && s[2] == 'e') || (s[1] == 'v' && s[2] == 'e')
        || (s[1] == 'l' && s[2] == 'l')) {
        3
    } else if s.len() >= 2 && s[0] == '\'' && (s[1] == 's' || s[1] == 't' || s[1] == 'm' || s[1]
        == 'd') {
        2
    } else {
        0
    }
}

/// The length of the run of `class` at the start of `s`, with a space before it.
fn spaced_run(s: &[char], class: CharClass) -> (r: usize)
    ensures
        r == spaced_run_len(s@, class),
        r <= s@.len(),
{
    let start: usize = if s.len() >= 2 && s[0] == ' ' && class.contains(s[1]) {
        1
    } else {
        0
    };
    let mut j: usize = start;
    assert(s@.skip(0) =~= s@);
    while j < s.len() && class.contains(s[j])
        invariant
            start <= j <= s@.len(),
            run_len(s@.skip(start as int), class) == j - start + run_len(s@.skip(j as int), class),
        decreases s@.len() - j,
    {
        assert(s@.skip(j as int).drop_first() =~= s@.skip(j + 1));
        j += 1;
    }
    j
}

/// The length of the white space at the start of `s`.
fn white_run(s: &[char]) -> (r: usize)
    ensures
        r == white_len(s@),
        r <= s@.len(),
{
    let mut k: usize = 0;
    assert(s@.skip(0) =~= s@);
    while k < s.len() && is_white_space(s[k])
        invariant
            k <= s@.len(),
            white_len(s@) == k + white_len(s@.skip(k as int)),
        decreases s@.len() - k,
    {
        assert(s@.skip(k as int).drop_first() =~= s@.skip(k + 1));
        k += 1;
    }
    k
}

/// The length of the piece at the start of `s`.
fn next_piece(s: &[char]) -> (r: usize)
    requires
        s@.len() > 0,
    ensures
        r == piece_len(s@),
        1 <= r <= s@.len(),
{
    proof {
        piece_len_in_range(s@);
    }
    let short: usize = contraction(s);
    if short > 0 {
        return short;
    }
    let letters: usize = spaced_run(s, CharClass::Letter);
    if letters > 0 {
        return letters;
    }
    let numbers: usize = spaced_run(s, CharClass::Number);
    if numbers > 0 {
        return numbers;
    }
    let symbols: usize = spaced_run(s, CharClass::Symbol);
    if symbols > 0 {
        return symbols;
    }
    let k: usize = white_run(s);
    if k == s.len() || k <= 1 {
        k
    } else {
        k - 1
    }
}

/// Splits `text` into its pieces.
pub fn split_tiktoken_pieces(text: &str) -> (r: Vec<String>)
    ensures
        r@.len() == pieces(text@).len(),
        forall|i: int| 0 <= i < r@.len() ==> (#[trigger] r@[i])@ == pieces(text@)[i],
{
    let chars = chars_of(text);
    let mut out: Vec<String> = Vec::new();
    let mut i: usize = 0;
    let ghost all = pieces(text@);
    assert(text@.skip(0) =~= text@);
    while i < chars.len()
        invariant
            i <= chars@.len(),
            chars@ == text@,
            all == pieces(text@),
            all.len() == out@.len() + pieces(text@.skip(i as int)).len(),
            forall|j: int| 0 <= j < out@.len() ==> (#[trigger] out@[j])@ == all[j],
            forall|j: int|
                0 <= j < pieces(text@.skip(i as int)).len() ==> all[out@.len() + j]
                    == #[trigger] pieces(text@.skip(i as int))[j],
        decreases chars@.len() - i,
    {
        let rest = &chars[i..chars.len()];
        let ghost here = pieces(text@.skip(i as int));
        assert(rest@ =~= text@.skip(i as int));
        let n: usize = next_piece(rest);
        let piece = string_of(&rest[0..n]);
        assert(piece@ =~= rest@.take(n as int));
        assert(rest@.skip(n as int) =~= text@.skip(i + n));
        let ghost next = pieces(text@.skip(i + n));
        assert(all[out@.len() as int] == here[0]);
        out.push(piece);
        assert forall|j: int| 0 <= j < next.len() implies all[out@.len() + j]
            == #[trigger] next[j] by {
            assert(all[(out@.len() - 1) + (j + 1)] == here[j + 1]);
        }
        i += n;
    }
    assert(pieces(text@.skip(i as int)).len() == 0);
    out
}

} // verus!
