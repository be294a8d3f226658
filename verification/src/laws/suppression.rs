//! Which tokens are never sampled.

use vstd::prelude::*;

use crate::decoding::{is_suppressed, list_of, listed_numbers, low_word};
use crate::encoding::ids_of_text;
use crate::laws::text::{
    all_in, signs_are_read, splitting_stops_at_separators, trimming_gives_back_the_middle,
};
use crate::numbers::{bounded_integer, decimal, decimal_reads_back, is_digit};
use crate::special::{
    bodies_are_distinct, no_speech_place, special_body, special_count, start_of_lm_place,
    start_of_prev_place, start_of_transcript, transcribe_place, translate_place,
};
use crate::symbols::{
    is_non_speech, is_only_token, sign_at, spaced, symbol_at, SIGN_COUNT, SYMBOL_COUNT,
};
use crate::text::{split, trimmed, TrimSet};
use crate::tokenizer::Tokenizer;

verus! {

/// Whether a special token is one that no transcript holds: the two tasks, the starts of a
/// transcript, of the text before and of a language model's text, and silence.
pub open spec fn names_control(body: Seq<char>) -> bool {
    ||| body == "transcribe"@
    ||| body == "translate"@
    ||| body == "startoftranscript"@
    ||| body == "nospeech"@
    ||| body == "startofprev"@
    ||| body == "startoflm"@
}

/// The control tokens are never sampled, whatever list is given.
pub proof fn control_tokens_are_never_sampled(t: Tokenizer, list: Option<Seq<char>>, k: int)
    requires
        t.encoding.wf(),
        0 <= k < special_count(t.encoding.width as nat),
        names_control(special_body(t.encoding.width as nat, k)),
    ensures
        is_suppressed(t, list, (t.encoding.eot_token + k) as u32),
{
    let w = t.encoding.width as nat;
    bodies_are_distinct(w, k, transcribe_place(w));
    bodies_are_distinct(w, k, translate_place(w));
    bodies_are_distinct(w, k, start_of_transcript());
    bodies_are_distinct(w, k, no_speech_place(w));
    bodies_are_distinct(w, k, start_of_prev_place(w));
    bodies_are_distinct(w, k, start_of_lm_place(w));
}

/// Without a list they are all that is suppressed.
pub proof fn nothing_else_is_suppressed_without_a_list(t: Tokenizer, id: u32) -> (k: int)
    requires
        t.encoding.wf(),
        is_suppressed(t, None, id),
    ensures
        0 <= k < special_count(t.encoding.width as nat),
        names_control(special_body(t.encoding.width as nat, k)),
        id == t.encoding.eot_token + k,
{
    let w = t.encoding.width as nat;
    if id == t.encoding.special_id(transcribe_place(w)) {
        transcribe_place(w)
    } else if id == t.encoding.special_id(translate_place(w)) {
        translate_place(w)
    } else if id == t.encoding.special_id(start_of_transcript()) {
        start_of_transcript()
    } else if id == t.encoding.special_id(no_speech_place(w)) {
        no_speech_place(w)
    } else if id == t.encoding.special_id(start_of_prev_place(w)) {
        start_of_prev_place(w)
    } else {
        start_of_lm_place(w)
    }
}

/// A list of ids adds exactly those ids.
pub proof fn a_list_suppresses_its_ids(t: Tokenizer, list: Seq<char>, id: u32)
    requires
        !list_of(list).contains(-1i64),
        forall|k: int| 0 <= k < list_of(list).len() ==> #[trigger] list_of(list)[k] <= u32::MAX,
    ensures
        is_suppressed(t, Some(list), id) <==> is_suppressed(t, None, id) || list_of(list).contains(
            id as i64,
        ),
{
    let numbers = list_of(list);
    if numbers.contains(id as i64) {
        let k = choose|k: int| 0 <= k < numbers.len() && numbers[k] == id as i64;
        assert(numbers[k] >= 0 && low_word(numbers[k]) == id);
    }
    if exists|k: int| 0 <= k < numbers.len() && #[trigger] numbers[k] >= 0 && low_word(numbers[k])
        == id {
        let k = choose|k: int|
            0 <= k < numbers.len() && #[trigger] numbers[k] >= 0 && low_word(numbers[k]) == id;
        assert(numbers[k] == id as i64);
    }
}

/// Of a number beyond 32 bits the lower ones count: it names the id that is a multiple of 2^32 away;
/// other negative numbers than -1 name none.
pub proof fn numbers_name_the_ids_of_their_low_bits(t: Tokenizer, list: Seq<char>, id: u32)
    requires
        !list_of(list).contains(-1i64),
    ensures
        is_suppressed(t, Some(list), id) <==> is_suppressed(t, None, id) || exists|k: int|
            0 <= k < list_of(list).len() && #[trigger] list_of(list)[k] >= 0 && (list_of(list)[k]
                - id) % 0x1_0000_0000 == 0,
{
    let numbers = list_of(list);
    assert forall|k: int| 0 <= k < numbers.len() && #[trigger] numbers[k] >= 0 implies (low_word(
        numbers[k],
    ) == id <==> (numbers[k] - id) % 0x1_0000_0000 == 0) by {
        let n = numbers[k] as int;
        assert(n == 0x1_0000_0000 * (n / 0x1_0000_0000) + n % 0x1_0000_0000);
    }
}

/// A list that holds -1 adds exactly the tokens that are no speech.
pub proof fn minus_one_suppresses_what_is_no_speech(t: Tokenizer, list: Seq<char>, id: u32)
    requires
        list_of(list).contains(-1i64),
    ensures
        is_suppressed(t, Some(list), id) <==> is_suppressed(t, None, id) || is_non_speech(
            t.encoding.encoder@,
            id,
        ),
{
}

// Reading the list.

proof fn lemma_numbers_from(part: Seq<char>, rest: Seq<Seq<char>>)
    ensures
        listed_numbers(seq![part] + rest) == listed_numbers(seq![part]) + listed_numbers(rest),
    decreases rest.len(),
{
    let all = seq![part] + rest;
    if rest.len() == 0 {
        assert(all =~= seq![part]);
        assert(listed_numbers(seq![part]) + listed_numbers(rest) =~= listed_numbers(seq![part]));
    } else {
        lemma_numbers_from(part, rest.drop_last());
        assert(all.drop_last() =~= seq![part] + rest.drop_last());
        assert(listed_numbers(all) =~= listed_numbers(seq![part]) + listed_numbers(rest));
    }
}

/// A list is read part by part: what stands before a comma is read as if it stood alone, and so is
/// what stands behind it.
pub proof fn lists_are_read_part_by_part(a: Seq<char>, b: Seq<char>)
    requires
        !a.contains(','),
    ensures
        list_of(a + seq![','] + b) == list_of(a) + list_of(b),
{
    splitting_stops_at_separators(a, ',', b);
    lemma_numbers_from(a, split(b, ','));
}

/// A part that is a number, with or without a sign and white space around it, is that number; and a
/// part that is none is left out.
pub proof fn a_part_is_its_number(left: Seq<char>, n: nat, right: Seq<char>, other: Seq<char>)
    requires
        all_in(left, TrimSet::White),
        all_in(right, TrimSet::White),
        !left.contains(','),
        !right.contains(','),
        n <= i64::MAX,
        !other.contains(','),
        bounded_integer(
            trimmed(other, TrimSet::White),
            true,
            i64::MIN as int,
            i64::MAX as int,
        ) is None,
    ensures
        list_of(left + decimal(n) + right) == seq![n as i64],
        list_of(left + (seq!['-'] + decimal(n)) + right) == seq![-(n as i64) as i64],
        list_of(other) == Seq::<i64>::empty(),
{
    decimal_reads_back(n);
    signs_are_read(n);
    let d = decimal(n);
    let m = seq!['-'] + d;
    assert(is_digit(d[0]) && is_digit(d.last()));
    trimming_gives_back_the_middle(left, d, right, TrimSet::White);
    assert(m.last() == d.last());
    trimming_gives_back_the_middle(left, m, right, TrimSet::White);
    lemma_one_part(left + d + right, left, d, right);
    lemma_one_part(left + m + right, left, m, right);
    lemma_single_part(left + d + right);
    lemma_single_part(left + m + right);
    lemma_single_part(other);
}

proof fn lemma_one_part(s: Seq<char>, left: Seq<char>, middle: Seq<char>, right: Seq<char>)
    requires
        s == left + middle + right,
        !left.contains(','),
        !right.contains(','),
        forall|i: int|
            0 <= i < middle.len() ==> is_digit(#[trigger] middle[i]) || middle[i] == '-',
    ensures
        !s.contains(','),
{
    if s.contains(',') {
        let i = choose|i: int| 0 <= i < s.len() && s[i] == ',';
        if i < left.len() {
            assert(left[i] == ',');
        } else if i < left.len() + middle.len() {
            assert(middle[i - left.len()] == ',');
        } else {
            assert(right[i - left.len() - middle.len()] == ',');
        }
    }
}

proof fn lemma_single_part(s: Seq<char>)
    requires
        !s.contains(','),
    ensures
        list_of(s) == (match bounded_integer(
            trimmed(s, TrimSet::White),
            true,
            i64::MIN as int,
            i64::MAX as int,
        ) {
            Some(v) => seq![v as i64],
            None => Seq::<i64>::empty(),
        }),
{
    splitting_stops_at_separators(s, ',', s);
    let one = seq![s];
    assert(one.drop_last() =~= Seq::<Seq<char>>::empty());
    assert(listed_numbers(one.drop_last()) =~= Seq::<i64>::empty());
    assert(one.last() == s);
    assert(list_of(s) =~= (match bounded_integer(
        trimmed(s, TrimSet::White),
        true,
        i64::MIN as int,
        i64::MAX as int,
    ) {
        Some(v) => seq![v as i64],
        None => Seq::<i64>::empty(),
    }));
}

// What is no speech.

/// The single characters that annotate speech.
pub open spec fn annotates(c: char) -> bool {
    ||| c == '"' || c == '#' || c == '(' || c == ')' || c == '*' || c == '+' || c == '/'
    ||| c == ':' || c == ';' || c == '<' || c == '=' || c == '>' || c == '@' || c == '['
    ||| c == '\\' || c == ']' || c == '^' || c == '_' || c == '`' || c == '{' || c == '|'
    ||| c == '}' || c == '~' || c == '\u{300c}' || c == '\u{300d}' || c == '\u{300e}'
    ||| c == '\u{300f}'
}

/// The longer signs that annotate speech.
pub open spec fn is_long_sign(s: Seq<char>) -> bool {
    ||| s == seq!['<', '<'] || s == seq!['>', '>'] || s == seq!['<', '<', '<']
    ||| s == seq!['>', '>', '>'] || s == seq!['-', '-'] || s == seq!['-', '-', '-']
    ||| s == seq!['-', '('] || s == seq!['-', '['] || s == seq!['(', '\'']
    ||| s == seq!['(', '"'] || s == seq!['(', '('] || s == seq![')', ')']
    ||| s == seq!['(', '(', '('] || s == seq![')', ')', ')'] || s == seq!['[', '[']
    ||| s == seq![']', ']'] || s == seq!['{', '{'] || s == seq!['}', '}']
    ||| s == seq!['\u{266a}', '\u{266a}'] || s == seq!['\u{266a}', '\u{266a}', '\u{266a}']
}

/// Whether a text annotates speech and is no speech itself.
pub open spec fn is_annotation(s: Seq<char>) -> bool {
    (s.len() == 1 && annotates(s[0])) || is_long_sign(s)
}

/// Whether `c` is one of the signs of musical notation that start at the quarter note.
pub open spec fn is_note(c: char) -> bool {
    '\u{2669}' <= c <= '\u{266f}'
}

/// Symbol `i` of the table is an annotation.
proof fn lemma_symbol(i: int)
    requires
        0 <= i < SYMBOL_COUNT,
    ensures
        is_annotation(symbol_at(i)),
{
    reveal_symbols();
    let s = symbol_at(i);
    if i < 27 {
        assert(s.len() == 1);
    } else if s.len() == 2 {
        assert(s =~= seq![s[0], s[1]]);
    } else {
        assert(s =~= seq![s[0], s[1], s[2]]);
    }
}

/// What the literals of the table hold.
proof fn reveal_symbols()
    ensures
        "\""@ == seq!['"'],
        "#"@ == seq!['#'],
        "("@ == seq!['('],
        ")"@ == seq![')'],
        "*"@ == seq!['*'],
        "+"@ == seq!['+'],
        "/"@ == seq!['/'],
        ":"@ == seq![':'],
        ";"@ == seq![';'],
        "<"@ == seq!['<'],
        "="@ == seq!['='],
        ">"@ == seq!['>'],
        "@"@ == seq!['@'],
        "["@ == seq!['['],
        "\\"@ == seq!['\\'],
        "]"@ == seq![']'],
        "^"@ == seq!['^'],
        "_"@ == seq!['_'],
        "`"@ == seq!['`'],
        "{"@ == seq!['{'],
        "|"@ == seq!['|'],
        "}"@ == seq!['}'],
        "~"@ == seq!['~'],
        "\u{300c}"@ == seq!['\u{300c}'],
        "\u{300d}"@ == seq!['\u{300d}'],
        "\u{300e}"@ == seq!['\u{300e}'],
        "\u{300f}"@ == seq!['\u{300f}'],
        "<<"@ == seq!['<', '<'],
        ">>"@ == seq!['>', '>'],
        "<<<"@ == seq!['<', '<', '<'],
        ">>>"@ == seq!['>', '>', '>'],
        "--"@ == seq!['-', '-'],
        "---"@ == seq!['-', '-', '-'],
        "-("@ == seq!['-', '('],
        "-["@ == seq!['-', '['],
        "('"@ == seq!['(', '\''],
        "(\""@ == seq!['(', '"'],
        "(("@ == seq!['(', '('],
        "))"@ == seq![')', ')'],
        "((("@ == seq!['(', '(', '('],
        ")))"@ == seq![')', ')', ')'],
        "[["@ == seq!['[', '['],
        "]]"@ == seq![']', ']'],
        "{{"@ == seq!['{', '{'],
        "}}"@ == seq!['}', '}'],
        "\u{266a}\u{266a}"@ == seq!['\u{266a}', '\u{266a}'],
        "\u{266a}\u{266a}\u{266a}"@ == seq!['\u{266a}', '\u{266a}', '\u{266a}'],
        "\u{2669}"@ == seq!['\u{2669}'],
        "\u{266a}"@ == seq!['\u{266a}'],
        "\u{266b}"@ == seq!['\u{266b}'],
        "\u{266c}"@ == seq!['\u{266c}'],
        "\u{266d}"@ == seq!['\u{266d}'],
        "\u{266e}"@ == seq!['\u{266e}'],
        "\u{266f}"@ == seq!['\u{266f}'],
        "-"@ == seq!['-'],
        "'"@ == seq!['\''],
{
    reveal_strlit("\"");
    assert("\""@ =~= seq!['"']);
    reveal_strlit("#");
    assert("#"@ =~= seq!['#']);
    reveal_strlit("(");
    assert("("@ =~= seq!['(']);
    reveal_strlit(")");
    assert(")"@ =~= seq![')']);
    reveal_strlit("*");
    assert("*"@ =~= seq!['*']);
    reveal_strlit("+");
    assert("+"@ =~= seq!['+']);
    reveal_strlit("/");
    assert("/"@ =~= seq!['/']);
    reveal_strlit(":");
    assert(":"@ =~= seq![':']);
    reveal_strlit(";");
    assert(";"@ =~= seq![';']);
    reveal_strlit("<");
    assert("<"@ =~= seq!['<']);
    reveal_strlit("=");
    assert("="@ =~= seq!['=']);
    reveal_strlit(">");
    assert(">"@ =~= seq!['>']);
    reveal_strlit("@");
    assert("@"@ =~= seq!['@']);
    reveal_strlit("[");
    assert("["@ =~= seq!['[']);
    reveal_strlit("\\");
    assert("\\"@ =~= seq!['\\']);
    reveal_strlit("]");
    assert("]"@ =~= seq![']']);
    reveal_strlit("^");
    assert("^"@ =~= seq!['^']);
    reveal_strlit("_");
    assert("_"@ =~= seq!['_']);
    reveal_strlit("`");
    assert("`"@ =~= seq!['`']);
    reveal_strlit("{");
    assert("{"@ =~= seq!['{']);
    reveal_strlit("|");
    assert("|"@ =~= seq!['|']);
    reveal_strlit("}");
    assert("}"@ =~= seq!['}']);
    reveal_strlit("~");
    assert("~"@ =~= seq!['~']);
    reveal_strlit("\u{300c}");
    assert("\u{300c}"@ =~= seq!['\u{300c}']);
    reveal_strlit("\u{300d}");
    assert("\u{300d}"@ =~= seq!['\u{300d}']);
    reveal_strlit("\u{300e}");
    assert("\u{300e}"@ =~= seq!['\u{300e}']);
    reveal_strlit("\u{300f}");
    assert("\u{300f}"@ =~= seq!['\u{300f}']);
    reveal_strlit("<<");
    assert("<<"@ =~= seq!['<', '<']);
    reveal_strlit(">>");
    assert(">>"@ =~= seq!['>', '>']);
    reveal_strlit("<<<");
    assert("<<<"@ =~= seq!['<', '<', '<']);
    reveal_strlit(">>>");
    assert(">>>"@ =~= seq!['>', '>', '>']);
    reveal_strlit("--");
    assert("--"@ =~= seq!['-', '-']);
    reveal_strlit("---");
    assert("---"@ =~= seq!['-', '-', '-']);
    reveal_strlit("-(");
    assert("-("@ =~= seq!['-', '(']);
    reveal_strlit("-[");
    assert("-["@ =~= seq!['-', '[']);
    reveal_strlit("('");
    assert("('"@ =~= seq!['(', '\'']);
    reveal_strlit("(\"");
    assert("(\""@ =~= seq!['(', '"']);
    reveal_strlit("((");
    assert("(("@ =~= seq!['(', '(']);
    reveal_strlit("))");
    assert("))"@ =~= seq![')', ')']);
    reveal_strlit("(((");
    assert("((("@ =~= seq!['(', '(', '(']);
    reveal_strlit(")))");
    assert(")))"@ =~= seq![')', ')', ')']);
    reveal_strlit("[[");
    assert("[["@ =~= seq!['[', '[']);
    reveal_strlit("]]");
    assert("]]"@ =~= seq![']', ']']);
    reveal_strlit("{{");
    assert("{{"@ =~= seq!['{', '{']);
    reveal_strlit("}}");
    assert("}}"@ =~= seq!['}', '}']);
    reveal_strlit("\u{266a}\u{266a}");
    assert("\u{266a}\u{266a}"@ =~= seq!['\u{266a}', '\u{266a}']);
    reveal_strlit("\u{266a}\u{266a}\u{266a}");
    assert("\u{266a}\u{266a}\u{266a}"@ =~= seq!['\u{266a}', '\u{266a}', '\u{266a}']);
    reveal_strlit("\u{2669}");
    assert("\u{2669}"@ =~= seq!['\u{2669}']);
    reveal_strlit("\u{266a}");
    assert("\u{266a}"@ =~= seq!['\u{266a}']);
    reveal_strlit("\u{266b}");
    assert("\u{266b}"@ =~= seq!['\u{266b}']);
    reveal_strlit("\u{266c}");
    assert("\u{266c}"@ =~= seq!['\u{266c}']);
    reveal_strlit("\u{266d}");
    assert("\u{266d}"@ =~= seq!['\u{266d}']);
    reveal_strlit("\u{266e}");
    assert("\u{266e}"@ =~= seq!['\u{266e}']);
    reveal_strlit("\u{266f}");
    assert("\u{266f}"@ =~= seq!['\u{266f}']);
    reveal_strlit("-");
    assert("-"@ =~= seq!['-']);
    reveal_strlit("'");
    assert("'"@ =~= seq!['\'']);
}

/// The place of an annotation in the table.
proof fn lemma_annotation(s: Seq<char>) -> (i: int)
    requires
        is_annotation(s),
    ensures
        0 <= i < SYMBOL_COUNT,
        symbol_at(i) == s,
{
    reveal_symbols();
    if s.len() == 1 && annotates(s[0]) {
        assert(s =~= seq![s[0]]);
    }
    if s == seq!['"'] {
        0
    } else if s == seq!['#'] {
        1
    } else if s == seq!['('] {
        2
    } else if s == seq![')'] {
        3
    } else if s == seq!['*'] {
        4
    } else if s == seq!['+'] {
        5
    } else if s == seq!['/'] {
        6
    } else if s == seq![':'] {
        7
    } else if s == seq![';'] {
        8
    } else if s == seq!['<'] {
        9
    } else if s == seq!['='] {
        10
    } else if s == seq!['>'] {
        11
    } else if s == seq!['@'] {
        12
    } else if s == seq!['['] {
        13
    } else if s == seq!['\\'] {
        14
    } else if s == seq![']'] {
        15
    } else if s == seq!['^'] {
        16
    } else if s == seq!['_'] {
        17
    } else if s == seq!['`'] {
        18
    } else if s == seq!['{'] {
        19
    } else if s == seq!['|'] {
        20
    } else if s == seq!['}'] {
        21
    } else if s == seq!['~'] {
        22
    } else if s == seq!['\u{300c}'] {
        23
    } else if s == seq!['\u{300d}'] {
        24
    } else if s == seq!['\u{300e}'] {
        25
    } else if s == seq!['\u{300f}'] {
        26
    } else if s == seq!['<', '<'] {
        27
    } else if s == seq!['>', '>'] {
        28
    } else if s == seq!['<', '<', '<'] {
        29
    } else if s == seq!['>', '>', '>'] {
        30
    } else if s == seq!['-', '-'] {
        31
    } else if s == seq!['-', '-', '-'] {
        32
    } else if s == seq!['-', '('] {
        33
    } else if s == seq!['-', '['] {
        34
    } else if s == seq!['(', '\''] {
        35
    } else if s == seq!['(', '"'] {
        36
    } else if s == seq!['(', '('] {
        37
    } else if s == seq![')', ')'] {
        38
    } else if s == seq!['(', '(', '('] {
        39
    } else if s == seq![')', ')', ')'] {
        40
    } else if s == seq!['[', '['] {
        41
    } else if s == seq![']', ']'] {
        42
    } else if s == seq!['{', '{'] {
        43
    } else if s == seq!['}', '}'] {
        44
    } else if s == seq!['\u{266a}', '\u{266a}'] {
        45
    } else {
        46
    }
}

/// A token that is all of an annotation, with a space before it or not, is no speech.
pub proof fn annotations_are_no_speech(ranks: Map<Seq<u8>, u32>, s: Seq<char>, id: u32)
    requires
        is_annotation(s),
        ids_of_text(s, ranks) == seq![id] || ids_of_text(seq![' '] + s, ranks) == seq![id],
    ensures
        is_non_speech(ranks, id),
{
    let i = lemma_annotation(s);
    assert(is_only_token(symbol_at(i), ranks, id) || is_only_token(spaced(symbol_at(i)), ranks, id));
}

/// The first token of a sign of music, with a space before it or not, is no speech.
pub proof fn music_is_no_speech(ranks: Map<Seq<u8>, u32>, c: char, id: u32)
    requires
        is_note(c),
        (ids_of_text(seq![c], ranks).len() > 0 && ids_of_text(seq![c], ranks)[0] == id) || (
        ids_of_text(seq![' ', c], ranks).len() > 0 && ids_of_text(seq![' ', c], ranks)[0] == id),
    ensures
        is_non_speech(ranks, id),
{
    reveal_symbols();
    let i = c as u32 - 0x2669;
    assert(sign_at(i) == seq![c]);
    assert(spaced(sign_at(i)) =~= seq![' ', c]);
}

/// A dash or an apostrophe behind a space is no speech: both belong within words.
pub proof fn dashes_belong_within_words(ranks: Map<Seq<u8>, u32>, c: char, id: u32)
    requires
        c == '-' || c == '\'',
        ids_of_text(seq![' ', c], ranks).len() > 0,
        ids_of_text(seq![' ', c], ranks)[0] == id,
    ensures
        is_non_speech(ranks, id),
{
    reveal_symbols();
    assert(spaced("-"@) =~= seq![' ', '-']);
    assert(spaced("'"@) =~= seq![' ', '\'']);
}

/// Whether `id` is all of the encoding of `s`, or of `s` behind a space.
pub open spec fn is_all_of(ranks: Map<Seq<u8>, u32>, s: Seq<char>, id: u32) -> bool {
    ids_of_text(s, ranks) == seq![id] || ids_of_text(seq![' '] + s, ranks) == seq![id]
}

/// Whether the encoding of `s` starts with `id`.
pub open spec fn is_start_of(ranks: Map<Seq<u8>, u32>, s: Seq<char>, id: u32) -> bool {
    ids_of_text(s, ranks).len() > 0 && ids_of_text(s, ranks)[0] == id
}

/// Every other token is speech.
pub proof fn nothing_else_is_no_speech(ranks: Map<Seq<u8>, u32>, id: u32)
    requires
        is_non_speech(ranks, id),
    ensures
        ({
            ||| exists|s: Seq<char>| is_annotation(s) && #[trigger] is_all_of(ranks, s, id)
            ||| exists|c: char|
                is_note(c) && (#[trigger] is_start_of(ranks, seq![c], id) || is_start_of(
                    ranks,
                    seq![' ', c],
                    id,
                ))
            ||| is_start_of(ranks, seq![' ', '-'], id)
            ||| is_start_of(ranks, seq![' ', '\''], id)
        }),
{
    reveal_symbols();
    assert(spaced("-"@) =~= seq![' ', '-']);
    assert(spaced("'"@) =~= seq![' ', '\'']);
    if crate::symbols::is_symbol(ranks, SYMBOL_COUNT as int, id) {
        let i = choose|i: int|
            0 <= i < SYMBOL_COUNT && {
                ||| is_only_token(#[trigger] symbol_at(i), ranks, id)
                ||| is_only_token(spaced(symbol_at(i)), ranks, id)
            };
        lemma_symbol(i);
        assert(is_all_of(ranks, symbol_at(i), id));
    } else if crate::symbols::is_sign(ranks, SIGN_COUNT as int, id) {
        let i = choose|i: int|
            0 <= i < SIGN_COUNT && {
                ||| crate::symbols::is_first_token(#[trigger] sign_at(i), ranks, id)
                ||| crate::symbols::is_first_token(spaced(sign_at(i)), ranks, id)
            };
        let c = sign_at(i)[0];
        assert(sign_at(i) == seq![c]);
        assert(is_note(c));
        assert(spaced(sign_at(i)) =~= seq![' ', c]);
        assert(is_start_of(ranks, seq![c], id) || is_start_of(ranks, seq![' ', c], id));
    }
}

} // verus!
