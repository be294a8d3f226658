//! How a text is split into pieces.

use vstd::prelude::*;

use crate::pieces::{
    contraction_len, piece_len, pieces, run_len, spaced_run_len, white_len, CharClass,
};
use crate::text::white_space;

verus! {

/// Every character is a letter, a number, white space or a symbol, and a symbol is none of the
/// others. Of ASCII, the letters are those from `a` to `z` and from `A` to `Z`, the numbers are the
/// digits, and the white space is the space and the controls from tab to carriage return.
pub proof fn classes_tell_characters_apart(c: char)
    ensures
        CharClass::Letter.holds(c) || CharClass::Number.holds(c) || CharClass::Symbol.holds(c)
            || white_space(c),
        CharClass::Symbol.holds(c) ==> !CharClass::Letter.holds(c) && !CharClass::Number.holds(c)
            && !white_space(c),
        (c as u32) < 128 ==> {
            &&& CharClass::Letter.holds(c) <==> (97 <= c as u32 <= 122 || 65 <= c as u32 <= 90)
            &&& CharClass::Number.holds(c) <==> 48 <= c as u32 <= 57
            &&& white_space(c) <==> (c as u32 == 32 || 9 <= c as u32 <= 13)
        },
{
}

/// Whether `s` starts with `head`.
pub open spec fn starts_with(s: Seq<char>, head: Seq<char>) -> bool {
    head.len() <= s.len() && s.take(head.len() as int) == head
}

/// The endings that are pieces of their own.
pub open spec fn is_contraction(c: Seq<char>) -> bool {
    ||| c == seq!['\'', 's']
    ||| c == seq!['\'', 't']
    ||| c == seq!['\'', 'm']
    ||| c == seq!['\'', 'd']
    ||| c == seq!['\'', 'r', 'e']
    ||| c == seq!['\'', 'v', 'e']
    ||| c == seq!['\'', 'l', 'l']
}

/// A run that fills the start of a text has its length.
proof fn lemma_run_len(run: Seq<char>, tail: Seq<char>, class: CharClass)
    requires
        forall|i: int| 0 <= i < run.len() ==> class.holds(#[trigger] run[i]),
        tail.len() > 0 ==> !class.holds(tail[0]),
    ensures
        run_len(run + tail, class) == run.len(),
    decreases run.len(),
{
    let s = run + tail;
    if run.len() > 0 {
        let rest = run.drop_first();
        assert forall|i: int| 0 <= i < rest.len() implies class.holds(#[trigger] rest[i]) by {
            assert(rest[i] == run[i + 1]);
        }
        lemma_run_len(rest, tail, class);
        assert(s.drop_first() =~= rest + tail);
        assert(s[0] == run[0]);
    } else {
        assert(s =~= tail);
    }
}

/// White space that fills the start of a text has its length.
proof fn lemma_white_len(run: Seq<char>, tail: Seq<char>)
    requires
        forall|i: int| 0 <= i < run.len() ==> white_space(#[trigger] run[i]),
        tail.len() > 0 ==> !white_space(tail[0]),
    ensures
        white_len(run + tail) == run.len(),
    decreases run.len(),
{
    let s = run + tail;
    if run.len() > 0 {
        let rest = run.drop_first();
        assert forall|i: int| 0 <= i < rest.len() implies white_space(#[trigger] rest[i]) by {
            assert(rest[i] == run[i + 1]);
        }
        lemma_white_len(rest, tail);
        assert(s.drop_first() =~= rest + tail);
        assert(s[0] == run[0]);
    } else {
        assert(s =~= tail);
    }
}

/// Where a text starts with no character of a class, it has no run of it.
proof fn lemma_no_run(s: Seq<char>, class: CharClass)
    requires
        s.len() > 0,
        !class.holds(s[0]),
        s[0] == ' ' && s.len() > 1 ==> !class.holds(s[1]),
    ensures
        spaced_run_len(s, class) == 0,
{
}

/// What a contraction is, by its length.
proof fn lemma_contraction(s: Seq<char>)
    ensures
        contraction_len(s) <= s.len(),
        contraction_len(s) > 0 ==> is_contraction(s.take(contraction_len(s) as int)),
        contraction_len(s) == 0 ==> forall|c: Seq<char>| #[trigger]
            is_contraction(c) ==> !starts_with(s, c),
{
    let n = contraction_len(s) as int;
    if n == 3 {
        assert(s.take(3) =~= seq![s[0], s[1], s[2]]);
    } else if n == 2 {
        assert(s.take(2) =~= seq![s[0], s[1]]);
    } else {
        assert forall|c: Seq<char>| #[trigger] is_contraction(c) implies !starts_with(s, c) by {
            if starts_with(s, c) {
                let t = s.take(c.len() as int);
                assert(t[0] == s[0] && t[1] == s[1]);
                if c.len() == 3 {
                    assert(t[2] == s[2]);
                }
            }
        }
    }
}

/// The pieces of a text whose first piece is known.
proof fn lemma_pieces_from(head: Seq<char>, tail: Seq<char>)
    requires
        head.len() > 0,
        piece_len(head + tail) == head.len(),
    ensures
        pieces(head + tail) == seq![head] + pieces(tail),
{
    let s = head + tail;
    assert(s.take(head.len() as int) =~= head);
    assert(s.skip(head.len() as int) =~= tail);
}

/// A run of letters, of numbers or of symbols is one piece, however long it is, together with one
/// space before it where there is one; and the rest of the text is split as if it stood alone. The
/// run ends where a character of another kind follows, or the text ends. Only a contraction is a
/// piece before it is part of a run of symbols; and a character that is both letter and number
/// starts a run of letters.
pub proof fn runs_are_whole_pieces(lead: Seq<char>, run: Seq<char>, tail: Seq<char>, class: CharClass)
    requires
        lead.len() == 0 || lead == seq![' '],
        run.len() > 0,
        forall|i: int| 0 <= i < run.len() ==> class.holds(#[trigger] run[i]),
        tail.len() > 0 ==> !class.holds(tail[0]),
        class != CharClass::Letter ==> !CharClass::Letter.holds(run[0]),
        forall|c: Seq<char>| #[trigger] is_contraction(c) ==> !starts_with(lead + run + tail, c),
    ensures
        pieces(lead + run + tail) == seq![lead + run] + pieces(tail),
{
    let s = lead + run + tail;
    let head = lead + run;
    assert(head + tail =~= s);
    lemma_contraction(s);
    if contraction_len(s) > 0 {
        let c = s.take(contraction_len(s) as int);
        assert(is_contraction(c));
        assert(starts_with(s, c));
    }
    lemma_run_len(run, tail, class);
    if lead.len() == 0 {
        assert(s =~= run + tail);
        assert(s[0] == run[0]);
        if class == CharClass::Letter {
            assert(run[0] != ' ');
            assert(spaced_run_len(s, CharClass::Letter) == run.len());
        } else {
            assert(run[0] != ' ');
            lemma_no_run(s, CharClass::Letter);
            if class == CharClass::Symbol {
                lemma_no_run(s, CharClass::Number);
            }
            assert(spaced_run_len(s, class) == run.len());
        }
    } else {
        assert(s[0] == ' ' && s[1] == run[0]);
        assert(s.skip(1) =~= run + tail);
        assert(spaced_run_len(s, class) == 1 + run.len());
        if class != CharClass::Letter {
            lemma_no_run(s, CharClass::Letter);
            if class == CharClass::Symbol {
                lemma_no_run(s, CharClass::Number);
            }
        }
    }
    lemma_pieces_from(head, tail);
}

/// A contraction at the start of a text is a piece, whatever follows it.
pub proof fn contractions_are_pieces(c: Seq<char>, tail: Seq<char>)
    requires
        is_contraction(c),
    ensures
        pieces(c + tail) == seq![c] + pieces(tail),
{
    let s = c + tail;
    assert(s[0] == c[0] && s[1] == c[1]);
    if c.len() == 3 {
        assert(s[2] == c[2]);
    }
    assert(c.len() == 2 ==> c[1] == 's' || c[1] == 't' || c[1] == 'm' || c[1] == 'd');
    lemma_pieces_from(c, tail);
}

/// Whether `c` is white space, and neither letter nor number.
pub open spec fn only_white(c: char) -> bool {
    white_space(c) && !CharClass::Letter.holds(c) && !CharClass::Number.holds(c)
}

/// White space at the end of a text is one piece. White space before other text leaves its last
/// character to what follows, where it has more than one; and one character of white space that is
/// no space is a piece by itself.
pub proof fn white_space_goes_with_what_follows(white: Seq<char>, tail: Seq<char>)
    requires
        white.len() > 0,
        forall|i: int| 0 <= i < white.len() ==> only_white(#[trigger] white[i]),
        tail.len() > 0 ==> !white_space(tail[0]),
    ensures
        tail.len() == 0 ==> pieces(white + tail) == seq![white],
        tail.len() > 0 && white.len() > 1 ==> pieces(white + tail) == seq![white.drop_last()]
            + pieces(seq![white.last()] + tail),
        tail.len() > 0 && white.len() == 1 && white[0] != ' ' ==> pieces(white + tail)
            == seq![white] + pieces(tail),
{
    let s = white + tail;
    lemma_white_len(white, tail);
    assert(s[0] == white[0]);
    assert(s[0] != '\'');
    if tail.len() == 0 {
        assert(s =~= white);
        assert(white.len() > 1 ==> s[1] == white[1]);
        lemma_no_run(s, CharClass::Letter);
        lemma_no_run(s, CharClass::Number);
        lemma_no_run(s, CharClass::Symbol);
        lemma_pieces_from(white, tail);
        assert(pieces(tail) =~= Seq::<Seq<char>>::empty());
        assert(seq![white] + pieces(tail) =~= seq![white]);
    } else if white.len() > 1 {
        assert(s[1] == white[1]);
        lemma_no_run(s, CharClass::Letter);
        lemma_no_run(s, CharClass::Number);
        lemma_no_run(s, CharClass::Symbol);
        let head = white.drop_last();
        let rest = seq![white.last()] + tail;
        assert(head + rest =~= s);
        lemma_pieces_from(head, rest);
    } else if white[0] != ' ' {
        lemma_no_run(s, CharClass::Letter);
        lemma_no_run(s, CharClass::Number);
        lemma_no_run(s, CharClass::Symbol);
        lemma_pieces_from(white, tail);
    }
}

} // verus!
