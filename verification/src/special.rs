//! The special tokens that follow the vocabulary, and their order.
//!
//! Special tokens are numbered by position: their ids count up from the size of the vocabulary,
//! in the order of `special_name`.

use vstd::prelude::*;
use vstd::utf8::*;

use crate::languages::{code_at, codes_are_distinct, language_code, LANGUAGE_COUNT};
use crate::numbers::{
    decimal, decimal_chars, decimal_reads_back, digit, is_digit, padded_decimal,
    padded_decimal_chars,
};
use crate::pieces::ascii_alphanumeric;
use crate::text::{chars_of, string_of, utf8_is_injective};

verus! {

/// The number of timestamp tokens: one for every 20 ms from 0 s to 30 s.
pub const TIMESTAMP_COUNT: usize = 1501;

/// The number of special tokens that are neither languages nor timestamps.
pub const CONTROL_COUNT: usize = 8;

/// The number of languages that have a token where a model names `num_languages`.
pub open spec fn language_width(num_languages: nat) -> nat {
    if num_languages < LANGUAGE_COUNT {
        num_languages
    } else {
        LANGUAGE_COUNT as nat
    }
}

/// The number of special tokens with `width` languages.
pub open spec fn special_count(width: nat) -> nat {
    width + CONTROL_COUNT as nat + TIMESTAMP_COUNT as nat
}

/// The text of timestamp `i`: its time in seconds, with two decimals.
pub open spec fn timestamp_text(i: nat) -> Seq<char> {
    decimal(i / 50).push('.') + padded_decimal(2 * (i % 50), 2)
}

/// Position of the token for the end of a text.
pub open spec fn end_of_text() -> int {
    0
}

/// Position of the token for the start of a transcript.
pub open spec fn start_of_transcript() -> int {
    1
}

/// Position of the token for language `i`.
pub open spec fn language_place(i: int) -> int {
    2 + i
}

/// Position of the token for the task of translating.
pub open spec fn translate_place(width: nat) -> int {
    2int + width
}

/// Position of the token for the task of transcribing.
pub open spec fn transcribe_place(width: nat) -> int {
    3int + width
}

/// Position of the token that starts a language model's text.
pub open spec fn start_of_lm_place(width: nat) -> int {
    4int + width
}

/// Position of the token that starts the previous text.
pub open spec fn start_of_prev_place(width: nat) -> int {
    5int + width
}

/// Position of the token for silence.
pub open spec fn no_speech_place(width: nat) -> int {
    6int + width
}

/// Position of the token that turns timestamps off.
pub open spec fn no_timestamps_place(width: nat) -> int {
    7int + width
}

/// Position of the token for timestamp `i`.
pub open spec fn timestamp_place(width: nat, i: int) -> int {
    8 + width + i
}

/// The text between the brackets of special token `k`.
pub open spec fn special_body(width: nat, k: int) -> Seq<char> {
    if k == end_of_text() {
        "endoftext"@
    } else if k == start_of_transcript() {
        "startoftranscript"@
    } else if k < language_place(width as int) {
        code_at(k - 2)
    } else if k == translate_place(width) {
        "translate"@
    } else if k == transcribe_place(width) {
        "transcribe"@
    } else if k == start_of_lm_place(width) {
        "startoflm"@
    } else if k == start_of_prev_place(width) {
        "startofprev"@
    } else if k == no_speech_place(width) {
        "nospeech"@
    } else if k == no_timestamps_place(width) {
        "notimestamps"@
    } else {
        timestamp_text((k - timestamp_place(width, 0)) as nat)
    }
}

/// `body` between `<|` and `|>`.
pub open spec fn bracketed(body: Seq<char>) -> Seq<char> {
    seq!['<', '|'] + body + seq!['|', '>']
}

/// The name of special token `k`.
pub open spec fn special_name(width: nat, k: int) -> Seq<char> {
    bracketed(special_body(width, k))
}

/// The bytes of special token `k`.
pub open spec fn special_bytes(width: nat, k: int) -> Seq<u8> {
    encode_utf8(special_name(width, k))
}

/// A timestamp's text starts with a digit and tells its number.
proof fn lemma_timestamp_text(i: nat)
    ensures
        timestamp_text(i).len() >= 4,
        is_digit(timestamp_text(i)[0]),
        timestamp_text(i).take(timestamp_text(i).len() - 3) == decimal(i / 50),
        timestamp_text(i)[timestamp_text(i).len() - 2] == digit(((2 * (i % 50)) / 10) % 10),
        timestamp_text(i)[timestamp_text(i).len() - 1] == digit((2 * (i % 50)) % 10),
{
    let v = 2 * (i % 50);
    reveal_with_fuel(padded_decimal, 3);
    assert(padded_decimal(v, 2) =~= seq![digit((v / 10) % 10), digit(v % 10)]);
    decimal_reads_back(i / 50);
    let t = timestamp_text(i);
    assert(t.take(t.len() - 3) =~= decimal(i / 50));
    assert(t[0] == decimal(i / 50)[0]);
}

/// No two timestamps have the same text.
proof fn lemma_timestamps_distinct(i: nat, j: nat)
    requires
        timestamp_text(i) == timestamp_text(j),
    ensures
        i == j,
{
    lemma_timestamp_text(i);
    lemma_timestamp_text(j);
    decimal_reads_back(i / 50);
    decimal_reads_back(j / 50);
    let v = 2 * (i % 50);
    let w = 2 * (j % 50);
    assert(digit((v / 10) % 10) == digit((w / 10) % 10));
    assert(digit(v % 10) == digit(w % 10));
    assert(v < 100 && w < 100);
}

/// Whether position `k` is that of a language.
pub open spec fn is_language_place(width: nat, k: int) -> bool {
    2 <= k < language_place(width as int)
}

/// The kind of a special token shows in its text: timestamps start with a digit, and of the
/// others the languages are those of at most three letters.
pub proof fn lemma_body_shape(width: nat, k: int)
    requires
        width <= LANGUAGE_COUNT,
        0 <= k < special_count(width),
    ensures
        special_body(width, k).len() > 0,
        ascii_alphanumeric(special_body(width, k)[0]),
        is_digit(special_body(width, k)[0]) <==> k >= timestamp_place(width, 0),
        is_language_place(width, k) ==> special_body(width, k).len() <= 3,
        k < timestamp_place(width, 0) && !is_language_place(width, k) ==> special_body(
            width,
            k,
        ).len() >= 8,
{
    reveal_strlit("endoftext");
    reveal_strlit("startoftranscript");
    reveal_strlit("translate");
    reveal_strlit("transcribe");
    reveal_strlit("startoflm");
    reveal_strlit("startofprev");
    reveal_strlit("nospeech");
    reveal_strlit("notimestamps");
    if is_language_place(width, k) {
        codes_are_distinct(k - 2, k - 2);
        assert(special_body(width, k) == code_at(k - 2));
    } else if k >= timestamp_place(width, 0) {
        lemma_timestamp_text((k - timestamp_place(width, 0)) as nat);
    }
}

/// The control tokens have different texts.
proof fn lemma_controls_distinct(width: nat, j: int, k: int)
    requires
        0 <= j < timestamp_place(width, 0),
        0 <= k < timestamp_place(width, 0),
        !is_language_place(width, j),
        !is_language_place(width, k),
        special_body(width, j) == special_body(width, k),
    ensures
        j == k,
{
    reveal_strlit("endoftext");
    reveal_strlit("startoftranscript");
    reveal_strlit("translate");
    reveal_strlit("transcribe");
    reveal_strlit("startoflm");
    reveal_strlit("startofprev");
    reveal_strlit("nospeech");
    reveal_strlit("notimestamps");
    assert("endoftext"@[0] == 'e' && "translate"@[0] == 't' && "startoflm"@[0] == 's');
    let a = special_body(width, j);
    assert(a[0] == special_body(width, k)[0]);
    if j == 0 {
        assert(a.len() == 9 && a[0] == 'e');
    } else if j == 1 {
        assert(a.len() == 17);
    } else if j == 2 + width {
        assert(a.len() == 9 && a[0] == 't');
    } else if j == 3 + width {
        assert(a.len() == 10);
    } else if j == 4 + width {
        assert(a.len() == 9 && a[0] == 's');
    } else if j == 5 + width {
        assert(a.len() == 11);
    } else if j == 6 + width {
        assert(a.len() == 8);
    } else {
        assert(a.len() == 12);
    }
}

/// The texts between the brackets are not empty, and no two are the same.
pub proof fn bodies_are_distinct(width: nat, j: int, k: int)
    requires
        width <= LANGUAGE_COUNT,
        0 <= j < special_count(width),
        0 <= k < special_count(width),
    ensures
        special_body(width, j).len() > 0,
        special_body(width, j) == special_body(width, k) ==> j == k,
{
    lemma_body_shape(width, j);
    lemma_body_shape(width, k);
    let stamps = timestamp_place(width, 0);
    if special_body(width, j) == special_body(width, k) {
        if j >= stamps {
            lemma_timestamps_distinct((j - stamps) as nat, (k - stamps) as nat);
        } else if is_language_place(width, j) {
            codes_are_distinct(j - 2, k - 2);
        } else {
            lemma_controls_distinct(width, j, k);
        }
    }
}

/// Brackets put round two different texts give different texts.
pub proof fn brackets_are_injective(a: Seq<char>, b: Seq<char>)
    requires
        bracketed(a) == bracketed(b),
    ensures
        a == b,
{
    assert(bracketed(a).len() == a.len() + 4);
    assert(bracketed(b).len() == b.len() + 4);
    assert forall|i: int| 0 <= i < a.len() implies a[i] == b[i] by {
        assert(bracketed(a)[i + 2] == a[i]);
        assert(bracketed(b)[i + 2] == b[i]);
    }
    assert(a =~= b);
}

/// No two special tokens have the same name, nor the same bytes.
pub proof fn special_names_are_distinct(width: nat, j: int, k: int)
    requires
        width <= LANGUAGE_COUNT,
        0 <= j < special_count(width),
        0 <= k < special_count(width),
        j != k,
    ensures
        special_name(width, j) != special_name(width, k),
        special_bytes(width, j) != special_bytes(width, k),
{
    bodies_are_distinct(width, j, k);
    if special_name(width, j) == special_name(width, k) {
        brackets_are_injective(special_body(width, j), special_body(width, k));
    }
    if special_bytes(width, j) == special_bytes(width, k) {
        utf8_is_injective(special_name(width, j), special_name(width, k));
    }
}

/// Puts `<|` and `|>` round a text.
pub fn bracket(body: &[char]) -> (r: String)
    ensures
        r@ == bracketed(body@),
{
    let mut name: Vec<char> = Vec::new();
    name.push('<');
    name.push('|');
    name.extend_from_slice(body);
    name.push('|');
    name.push('>');
    assert(name@ =~= bracketed(body@));
    string_of(&name)
}

/// Writes the text of timestamp `i`.
pub fn timestamp_chars(i: usize) -> (r: Vec<char>)
    requires
        i < TIMESTAMP_COUNT,
    ensures
        r@ == timestamp_text(i as nat),
{
    let mut r = decimal_chars((i / 50) as u64);
    r.push('.');
    let cents = padded_decimal_chars((2 * (i % 50)) as u64, 2);
    r.extend_from_slice(&cents);
    assert(r@ =~= timestamp_text(i as nat));
    r
}

/// Writes the name of special token `k`.
pub fn special_token_name(width: usize, k: usize) -> (r: String)
    requires
        width <= LANGUAGE_COUNT,
        k < special_count(width as nat),
    ensures
        r@ == special_name(width as nat, k as int),
{
    let body: Vec<char> = if k == 0 {
        chars_of("endoftext")
    } else if k == 1 {
        chars_of("startoftranscript")
    } else if k < 2 + width {
        chars_of(language_code(k - 2))
    } else if k == 2 + width {
        chars_of("translate")
    } else if k == 3 + width {
        chars_of("transcribe")
    } else if k == 4 + width {
        chars_of("startoflm")
    } else if k == 5 + width {
        chars_of("startofprev")
    } else if k == 6 + width {
        chars_of("nospeech")
    } else if k == 7 + width {
        chars_of("notimestamps")
    } else {
        timestamp_chars(k - 8 - width)
    };
    bracket(&body)
}

} // verus!
