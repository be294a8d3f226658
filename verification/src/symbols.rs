//! The symbols that are kept out of a transcript.

use vstd::prelude::*;

use crate::encoding::{ids_of_text, Encoding};
use crate::text::{chars_of, string_of};

verus! {

/// The number of symbols that are suppressed where they are one token.
pub const SYMBOL_COUNT: usize = 47;

/// The number of musical signs, of which the first token is suppressed.
pub const SIGN_COUNT: usize = 7;

/// Symbol `i`.
pub open spec fn symbol_at(i: int) -> Seq<char> {
    if i == 0 {
        "\""@
    } else if i == 1 {
        "#"@
    } else if i == 2 {
        "("@
    } else if i == 3 {
        ")"@
    } else if i == 4 {
        "*"@
    } else if i == 5 {
        "+"@
    } else if i == 6 {
        "/"@
    } else if i == 7 {
        ":"@
    } else if i == 8 {
        ";"@
    } else if i == 9 {
        "<"@
    } else if i == 10 {
        "="@
    } else if i == 11 {
        ">"@
    } else if i == 12 {
        "@"@
    } else if i == 13 {
        "["@
    } else if i == 14 {
        "\\"@
    } else if i == 15 {
        "]"@
    } else if i == 16 {
        "^"@
    } else if i == 17 {
        "_"@
    } else if i == 18 {
        "`"@
    } else if i == 19 {
        "{"@
    } else if i == 20 {
        "|"@
    } else if i == 21 {
        "}"@
    } else if i == 22 {
        "~"@
    } else if i == 23 {
        "\u{300c}"@
    } else if i == 24 {
        "\u{300d}"@
    } else if i == 25 {
        "\u{300e}"@
    } else if i == 26 {
        "\u{300f}"@
    } else if i == 27 {
        "<<"@
    } else if i == 28 {
        ">>"@
    } else if i == 29 {
        "<<<"@
    } else if i == 30 {
        ">>>"@
    } else if i == 31 {
        "--"@
    } else if i == 32 {
        "---"@
    } else if i == 33 {
        "-("@
    } else if i == 34 {
        "-["@
    } else if i == 35 {
        "('"@
    } else if i == 36 {
        "(\""@
    } else if i == 37 {
        "(("@
    } else if i == 38 {
        "))"@
    } else if i == 39 {
        "((("@
    } else if i == 40 {
        ")))"@
    } else if i == 41 {
        "[["@
    } else if i == 42 {
        "]]"@
    } else if i == 43 {
        "{{"@
    } else if i == 44 {
        "}}"@
    } else if i == 45 {
        "\u{266a}\u{266a}"@
    } else {
        "\u{266a}\u{266a}\u{266a}"@
    }
}

/// Musical sign `i`.
pub open spec fn sign_at(i: int) -> Seq<char> {
    if i == 0 {
        "\u{2669}"@
    } else if i == 1 {
        "\u{266a}"@
    } else if i == 2 {
        "\u{266b}"@
    } else if i == 3 {
        "\u{266c}"@
    } else if i == 4 {
        "\u{266d}"@
    } else if i == 5 {
        "\u{266e}"@
    } else {
        "\u{266f}"@
    }
}

/// `s` behind a space.
pub open spec fn spaced(s: Seq<char>) -> Seq<char> {
    seq![' '] + s
}

/// Whether `text` encodes to `id` and nothing else.
pub open spec fn is_only_token(text: Seq<char>, ranks: Map<Seq<u8>, u32>, id: u32) -> bool {
    ids_of_text(text, ranks) == seq![id]
}

/// Whether the encoding of `text` starts with `id`.
pub open spec fn is_first_token(text: Seq<char>, ranks: Map<Seq<u8>, u32>, id: u32) -> bool {
    ids_of_text(text, ranks).len() > 0 && ids_of_text(text, ranks)[0] == id
}

/// Whether `id` is the whole of one of the first `n` symbols, with a space before it or not.
pub open spec fn is_symbol(ranks: Map<Seq<u8>, u32>, n: int, id: u32) -> bool {
    exists|i: int|
        0 <= i < n && {
            ||| is_only_token(#[trigger] symbol_at(i), ranks, id)
            ||| is_only_token(spaced(symbol_at(i)), ranks, id)
        }
}

/// Whether `id` starts one of the first `n` musical signs, with a space before it or not.
pub open spec fn is_sign(ranks: Map<Seq<u8>, u32>, n: int, id: u32) -> bool {
    exists|i: int|
        0 <= i < n && {
            ||| is_first_token(#[trigger] sign_at(i), ranks, id)
            ||| is_first_token(spaced(sign_at(i)), ranks, id)
        }
}

/// Whether `id` starts a dash or an apostrophe behind a space: both are allowed within words only.
pub open spec fn is_word_break(ranks: Map<Seq<u8>, u32>, id: u32) -> bool {
    is_first_token(spaced("-"@), ranks, id) || is_first_token(spaced("'"@), ranks, id)
}

/// Whether `id` is kept out of a transcript.
pub open spec fn is_non_speech(ranks: Map<Seq<u8>, u32>, id: u32) -> bool {
    ||| is_word_break(ranks, id)
    ||| is_symbol(ranks, SYMBOL_COUNT as int, id)
    ||| is_sign(ranks, SIGN_COUNT as int, id)
}

/// Whether a list rises strictly.
pub open spec fn rising(list: Seq<u32>) -> bool {
    forall|i: int, j: int| 0 <= i < j < list.len() ==> #[trigger] list[i] < #[trigger] list[j]
}

/// Symbol `i`.
fn symbol(i: usize) -> (r: &'static str)
    requires
        i < SYMBOL_COUNT,
    ensures
        r@ == symbol_at(i as int),
{
    match i {
        0 => "\"",
        1 => "#",
        2 => "(",
        3 => ")",
        4 => "*",
        5 => "+",
        6 => "/",
        7 => ":",
        8 => ";",
        9 => "<",
        10 => "=",
        11 => ">",
        12 => "@",
        13 => "[",
        14 => "\\",
        15 => "]",
        16 => "^",
        17 => "_",
        18 => "`",
        19 => "{",
        20 => "|",
        21 => "}",
        22 => "~",
        23 => "\u{300c}",
        24 => "\u{300d}",
        25 => "\u{300e}",
        26 => "\u{300f}",
        27 => "<<",
        28 => ">>",
        29 => "<<<",
        30 => ">>>",
        31 => "--",
        32 => "---",
        33 => "-(",
        34 => "-[",
        35 => "('",
        36 => "(\"",
        37 => "((",
        38 => "))",
        39 => "(((",
        40 => ")))",
        41 => "[[",
        42 => "]]",
        43 => "{{",
        44 => "}}",
        45 => "\u{266a}\u{266a}",
        _ => "\u{266a}\u{266a}\u{266a}",
    }
}

/// Musical sign `i`.
fn sign(i: usize) -> (r: &'static str)
    requires
        i < SIGN_COUNT,
    ensures
        r@ == sign_at(i as int),
{
    match i {
        0 => "\u{2669}",
        1 => "\u{266a}",
        2 => "\u{266b}",
        3 => "\u{266c}",
        4 => "\u{266d}",
        5 => "\u{266e}",
        _ => "\u{266f}",
    }
}

/// Puts a space before a text.
fn with_space(s: &str) -> (r: String)
    ensures
        r@ == spaced(s@),
{
    let mut chars: Vec<char> = Vec::new();
    chars.push(' ');
    let body = chars_of(s);
    chars.extend_from_slice(&body);
    assert(chars@ =~= spaced(s@));
    string_of(&chars)
}

/// Adds `id` to a rising list, at its place, unless it is there.
fn add_to(list: &mut Vec<u32>, id: u32)
    requires
        rising(old(list)@),
    ensures
        rising(final(list)@),
        forall|x: u32| #[trigger] final(list)@.contains(x) <==> old(list)@.contains(x) || x == id,
{
    let ghost before = list@;
    let mut i: usize = 0;
    while i < list.len() && list[i] < id
        invariant
            i <= list@.len(),
            list@ == before,
            forall|j: int| 0 <= j < i ==> #[trigger] list@[j] < id,
        decreases list@.len() - i,
    {
        i += 1;
    }
    if i < list.len() && list[i] == id {
        assert(before.contains(id));
        return;
    }
    list.insert(i, id);
    proof {
        let after = list@;
        assert(after == before.insert(i as int, id));
        assert forall|x: u32| #[trigger] after.contains(x) <==> before.contains(x) || x == id by {
            if before.contains(x) {
                let j = choose|j: int| 0 <= j < before.len() && before[j] == x;
                if j < i {
                    assert(after[j] == x);
                } else {
                    assert(after[j + 1] == x);
                }
            }
            if x == id {
                assert(after[i as int] == x);
            }
            if after.contains(x) {
                let j = choose|j: int| 0 <= j < after.len() && after[j] == x;
                if j < i {
                    assert(before[j] == x);
                } else if j > i {
                    assert(before[j - 1] == x);
                }
            }
        }
        assert forall|a: int, b: int| 0 <= a < b < after.len() implies #[trigger] after[a]
            < #[trigger] after[b] by {
            if a > i {
                assert(before[a - 1] < before[b - 1]);
            } else if a == i {
                assert(before[b - 1] > id) by {
                    assert(before[i as int] > id);
                    if b - 1 > i {
                        assert(before[i as int] < before[b - 1]);
                    }
                }
            } else if b > i {
                assert(before[a] < before[b - 1]);
            }
        }
    }
}

/// Adds the first token of a text, where there is one.
fn add_first(list: &mut Vec<u32>, encoding: &Encoding, text: &str)
    requires
        rising(old(list)@),
    ensures
        rising(final(list)@),
        forall|x: u32| #[trigger]
            final(list)@.contains(x) <==> old(list)@.contains(x) || is_first_token(
                text@,
                encoding.encoder@,
                x,
            ),
{
    let ids = encoding.encode(text);
    if ids.len() > 0 {
        add_to(list, ids[0]);
    }
}

/// Adds the token of a text that is one token.
fn add_only(list: &mut Vec<u32>, encoding: &Encoding, text: &str)
    requires
        rising(old(list)@),
    ensures
        rising(final(list)@),
        forall|x: u32| #[trigger]
            final(list)@.contains(x) <==> old(list)@.contains(x) || is_only_token(
                text@,
                encoding.encoder@,
                x,
            ),
{
    let ids = encoding.encode(text);
    if ids.len() == 1 {
        assert(ids@ =~= seq![ids@[0]]);
        add_to(list, ids[0]);
        assert forall|x: u32| is_only_token(text@, encoding.encoder@, x) implies x == ids@[0] by {
            assert(seq![x][0] == x);
        }
    } else {
        assert forall|x: u32| !is_only_token(text@, encoding.encoder@, x) by {
            assert(seq![x].len() == 1);
        }
    }
}

/// The tokens that are kept out of a transcript, in rising order.
pub fn non_speech_ids(encoding: &Encoding) -> (r: Vec<u32>)
    ensures
        rising(r@),
        forall|id: u32| #[trigger] r@.contains(id) <==> is_non_speech(encoding.encoder@, id),
{
    let ghost ranks = encoding.encoder@;
    let mut list: Vec<u32> = Vec::new();
    add_first(&mut list, encoding, with_space("-").as_str());
    add_first(&mut list, encoding, with_space("'").as_str());
    let mut i: usize = 0;
    while i < SYMBOL_COUNT
        invariant
            i <= SYMBOL_COUNT,
            ranks == encoding.encoder@,
            rising(list@),
            forall|id: u32| #[trigger]
                list@.contains(id) <==> is_word_break(ranks, id) || is_symbol(ranks, i as int, id),
        decreases SYMBOL_COUNT - i,
    {
        add_only(&mut list, encoding, symbol(i));
        add_only(&mut list, encoding, with_space(symbol(i)).as_str());
        i += 1;
        assert forall|id: u32| #[trigger] list@.contains(id) <==> is_word_break(ranks, id)
            || is_symbol(ranks, i as int, id) by {
            assert(is_symbol(ranks, i as int, id) <==> is_symbol(ranks, i - 1, id) || is_only_token(
                symbol_at(i - 1),
                ranks,
                id,
            ) || is_only_token(spaced(symbol_at(i - 1)), ranks, id)) by {
                let s = symbol_at(i - 1);
                if is_symbol(ranks, i as int, id) && !is_symbol(ranks, i - 1, id) {
                    let j = choose|j: int|
                        0 <= j < i && (is_only_token(#[trigger] symbol_at(j), ranks, id)
                            || is_only_token(spaced(symbol_at(j)), ranks, id));
                    assert(j == i - 1);
                }
            }
        }
    }
    let mut k: usize = 0;
    while k < SIGN_COUNT
        invariant
            k <= SIGN_COUNT,
            ranks == encoding.encoder@,
            rising(list@),
            forall|id: u32| #[trigger]
                list@.contains(id) <==> is_word_break(ranks, id) || is_symbol(
                    ranks,
                    SYMBOL_COUNT as int,
                    id,
                ) || is_sign(ranks, k as int, id),
        decreases SIGN_COUNT - k,
    {
        add_first(&mut list, encoding, sign(k));
        add_first(&mut list, encoding, with_space(sign(k)).as_str());
        k += 1;
        assert forall|id: u32| #[trigger] list@.contains(id) <==> is_word_break(ranks, id)
            || is_symbol(ranks, SYMBOL_COUNT as int, id) || is_sign(ranks, k as int, id) by {
            assert(is_sign(ranks, k as int, id) <==> is_sign(ranks, k - 1, id) || is_first_token(
                sign_at(k - 1),
                ranks,
                id,
            ) || is_first_token(spaced(sign_at(k - 1)), ranks, id)) by {
                let s = sign_at(k - 1);
                if is_sign(ranks, k as int, id) && !is_sign(ranks, k - 1, id) {
                    let j = choose|j: int|
                        0 <= j < k && (is_first_token(#[trigger] sign_at(j), ranks, id)
                            || is_first_token(spaced(sign_at(j)), ranks, id));
                    assert(j == k - 1);
                }
            }
        }
    }
    list
}

} // verus!
