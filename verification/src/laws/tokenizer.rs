//! Tokenizers: how a transcript starts, languages, and words.

use vstd::prelude::*;
use vstd::utf8::*;

use crate::encoding::{bytes_of_ids, text_of_ids, Encoding};
use crate::languages::{
    code_at, code_is_found_at_its_place, first_codes, index_in, language_code_of, lemma_index_in,
    LANGUAGE_COUNT,
};
use crate::special::language_width;
use crate::text::{first_position, lemma_first_position, trimmed, TrimSet};
use crate::tokenizer::{
    multilingual_setting, resolved_language, start_sequence, vocabulary_name, Tokenizer,
    TokenizerError,
};
use crate::unicode::{lowercase, REPLACEMENT};
use crate::words::{ascii_punctuation, closes, group_len, starts_word, unicode_groups, words_of};

verus! {

// Starting a transcript.

/// A transcript starts with its start, the language and the task, in this order: the language is the
/// one at its place behind the start, and the task is transcribing only where it is said so, and
/// translating for whatever else is said.
pub proof fn transcripts_start_with_language_and_task(
    encoding: Encoding,
    num_languages: nat,
    i: int,
    task: Seq<char>,
)
    requires
        encoding.wf(),
        encoding.width == language_width(num_languages),
        0 <= i < encoding.width,
    ensures
        ({
            let eot = encoding.eot_token;
            let w = encoding.width;
            let start = (eot + 1) as u32;
            let language = (eot + 2 + i) as u32;
            let job = (eot + w + if task == "transcribe"@ {
                3int
            } else {
                2int
            }) as u32;
            &&& start_sequence(encoding, num_languages, Some(code_at(i)), Some(task)) == Some(
                seq![start, language, job],
            )
            &&& start_sequence(encoding, num_languages, Some(code_at(i)), None) == Some(
                seq![start, language],
            )
            &&& start_sequence(encoding, num_languages, None, Some(task)) == Some(seq![start, job])
            &&& start_sequence(encoding, num_languages, None, None) == Some(seq![start])
        }),
{
    let eot = encoding.eot_token;
    let start = (eot + 1) as u32;
    let language = (eot + 2 + i) as u32;
    let job = (eot + encoding.width + if task == "transcribe"@ {
        3int
    } else {
        2int
    }) as u32;
    code_is_found_at_its_place(i, num_languages);
    assert(seq![start].push(language) =~= seq![start, language]);
    assert(seq![start, language].push(job) =~= seq![start, language, job]);
    assert(seq![start].push(job) =~= seq![start, job]);
}

/// What is no code of a language that the model knows starts no transcript.
pub proof fn other_languages_start_no_transcript(
    encoding: Encoding,
    num_languages: nat,
    language: Seq<char>,
    task: Option<Seq<char>>,
)
    requires
        forall|i: int|
            0 <= i < LANGUAGE_COUNT && i < num_languages ==> #[trigger] code_at(i) != language,
    ensures
        start_sequence(encoding, num_languages, Some(language), task) is None,
{
    lemma_index_in(first_codes(num_languages), language);
    if let Some(k) = index_in(first_codes(num_languages), language) {
        assert(first_codes(num_languages)[k as int] == code_at(k as int));
    }
}

/// A language may be given in capitals: an ASCII text and the same text in small letters are the same
/// language.
pub proof fn languages_are_found_in_any_case(a: Seq<char>, b: Seq<char>)
    requires
        is_ascii_chars(a),
        is_ascii_chars(b),
        a.len() == b.len(),
        forall|i: int|
            0 <= i < a.len() ==> (#[trigger] a[i] == b[i] || ('A' <= a[i] <= 'Z' && b[i] == (
            a[i] as u32 + 32) as char)),
    ensures
        lowercase(a) == lowercase(b),
        resolved_language(Some(a)) == resolved_language(Some(b)),
{
    let (x, y) = (lowercase(a), lowercase(b));
    assert forall|i: int| 0 <= i < x.len() implies x[i] == y[i] by {
        let (c, d) = (a[i], b[i]);
        if c != d {
            lemma_small(c);
        }
    }
    assert(x =~= y);
}

proof fn lemma_small(c: char)
    requires
        'A' <= c <= 'Z',
    ensures
        crate::unicode::ascii_lower(c) == (c as u32 + 32) as char,
        crate::unicode::ascii_lower((c as u32 + 32) as char) == (c as u32 + 32) as char,
{
}

/// A text in small letters is resolved as the code, name or alias that it is; no language is no
/// language, and what is no language is refused.
pub proof fn small_letters_are_resolved_as_they_are(s: Seq<char>)
    requires
        is_ascii_chars(s),
        forall|i: int| 0 <= i < s.len() ==> !('A' <= #[trigger] s[i] <= 'Z'),
    ensures
        resolved_language(None) == Ok::<Option<Seq<char>>, TokenizerError>(None),
        language_code_of(s) matches Some(code) ==> resolved_language(Some(s)) == Ok::<
            _,
            TokenizerError,
        >(Some(code)),
        language_code_of(s) is None ==> resolved_language(Some(s)) == Err::<Option<Seq<char>>, _>(
            TokenizerError::UnsupportedLanguage,
        ),
{
    let x = lowercase(s);
    assert forall|i: int| 0 <= i < s.len() implies x[i] == s[i] by {
        let c = s[i];
        lemma_no_capital(c);
    }
    assert(x =~= s);
}

proof fn lemma_no_capital(c: char)
    requires
        !('A' <= c <= 'Z'),
    ensures
        crate::unicode::ascii_lower(c) == c,
{
}

/// A multilingual model takes what is set, or else the default; another model takes neither.
pub proof fn only_multilingual_models_have_settings(value: Seq<char>, default: Seq<char>)
    ensures
        multilingual_setting(true, Some(value), default) == Some(value),
        multilingual_setting(true, None, default) == Some(default),
        multilingual_setting(false, Some(value), default) is None,
        multilingual_setting(false, None, default) is None,
        vocabulary_name(true) == "multilingual"@,
        vocabulary_name(false) == "gpt2"@,
{
}

/// The number of languages of a tokenizer is that of the model, as far as there are tokens and
/// languages in the table.
pub proof fn a_tokenizer_knows_the_languages_of_its_model(t: Tokenizer)
    requires
        t.encoding.wf(),
    ensures
        t.language_count() <= t.encoding.width,
        t.language_count() <= t.num_languages,
        t.language_count() == t.encoding.width || t.language_count() == t.num_languages
            || t.language_count() == 100,
        t.encoding.width == language_width(t.num_languages as nat) ==> t.language_count()
            == t.encoding.width,
{
}

/// Chinese, Japanese, Thai, Lao, Burmese and Cantonese are written without spaces between words, and
/// no other language is.
pub proof fn six_languages_are_written_without_spaces(t: Tokenizer)
    ensures
        t.unspaced() <==> (t.language matches Some(l) && (l@ == "zh"@ || l@ == "ja"@ || l@ == "th"@
            || l@ == "lo"@ || l@ == "my"@ || l@ == "yue"@)),
{
}

// Words.

/// ASCII punctuation is what is printed in ASCII and is neither letter, nor digit, nor space.
pub proof fn punctuation_is_neither_letter_nor_digit(c: char)
    ensures
        ascii_punctuation(c) <==> 0x20 < c as u32 <= 0x7e && !(('a' <= c <= 'z') || ('A' <= c <= 'Z')
            || ('0' <= c <= '9')),
{
}

/// Whether a group is joined to the word before it: it is no special token, does not start with a
/// space, and is not one character of punctuation with white space around it.
pub open spec fn goes_on_a_word(text: Seq<char>, ids: Seq<u32>, eot: u32) -> bool {
    &&& ids.len() == 0 || ids[0] < eot
    &&& text.len() == 0 || text[0] != ' '
    &&& !(trimmed(text, TrimSet::White).len() == 1 && ascii_punctuation(
        trimmed(text, TrimSet::White)[0],
    ))
}

/// A group of tokens starts a word of its own, unless it goes on the word before it: then its text
/// and its tokens are added to that word. The words before stay as they are.
pub proof fn words_are_built_group_by_group(
    groups: Seq<Seq<u32>>,
    group: Seq<u32>,
    tokens: Map<u32, Seq<u8>>,
    eot: u32,
)
    ensures
        ({
            let before = words_of(groups, tokens, eot);
            let now = words_of(groups.push(group), tokens, eot);
            let text = text_of_ids(group, tokens);
            &&& words_of(Seq::<Seq<u32>>::empty(), tokens, eot).len() == 0
            &&& before.len() == 0 || !goes_on_a_word(text, group, eot) ==> now == before.push(
                (text, group),
            )
            &&& before.len() > 0 && goes_on_a_word(text, group, eot) ==> {
                &&& now.len() == before.len()
                &&& now.drop_last() == before.drop_last()
                &&& now.last().0 == before.last().0 + text
                &&& now.last().1 == before.last().1 + group
            }
        }),
{
    assert(groups.push(group).drop_last() =~= groups);
    let before = words_of(groups, tokens, eot);
    let text = text_of_ids(group, tokens);
    if before.len() > 0 && goes_on_a_word(text, group, eot) {
        assert(!starts_word(text, group, eot));
        assert(words_of(groups.push(group), tokens, eot).drop_last() =~= before.drop_last());
    } else if before.len() > 0 {
        assert(starts_word(text, group, eot));
    }
}

proof fn lemma_group_is_no_longer(
    ids: Seq<u32>,
    full: Seq<char>,
    offset: nat,
    tokens: Map<u32, Seq<u8>>,
    from: nat,
    n: nat,
)
    requires
        1 <= from <= n <= ids.len(),
        closes(full, offset, text_of_ids(ids.take(n as int), tokens)),
    ensures
        from <= group_len(ids, full, offset, tokens, from) <= n,
    decreases n - from,
{
    if !closes(full, offset, text_of_ids(ids.take(from as int), tokens)) {
        lemma_group_is_no_longer(ids, full, offset, tokens, from + 1, n);
    }
}

/// Tokens are grouped as soon as they make up whole characters: where the first `n` tokens are the
/// bytes of a text without U+FFFD, the first group has no more than these.
pub proof fn groups_are_as_short_as_can_be(
    ids: Seq<u32>,
    full: Seq<char>,
    offset: nat,
    tokens: Map<u32, Seq<u8>>,
    n: nat,
)
    requires
        1 <= n <= ids.len(),
        valid_utf8(bytes_of_ids(ids.take(n as int), tokens)),
        !decode_utf8(bytes_of_ids(ids.take(n as int), tokens)).contains(REPLACEMENT),
    ensures
        unicode_groups(ids, full, offset, tokens).len() > 0,
        1 <= unicode_groups(ids, full, offset, tokens)[0].len() <= n,
        unicode_groups(ids, full, offset, tokens)[0] == ids.take(
            unicode_groups(ids, full, offset, tokens)[0].len() as int,
        ),
{
    lemma_group_is_no_longer(ids, full, offset, tokens, 1, n);
}

/// A token that is whole characters by itself is a group by itself, and the rest is grouped as if it
/// stood behind its text.
pub proof fn a_whole_token_is_a_group(
    id: u32,
    rest: Seq<u32>,
    full: Seq<char>,
    offset: nat,
    tokens: Map<u32, Seq<u8>>,
)
    requires
        valid_utf8(bytes_of_ids(seq![id], tokens)),
        !decode_utf8(bytes_of_ids(seq![id], tokens)).contains(REPLACEMENT),
    ensures
        unicode_groups(seq![id] + rest, full, offset, tokens) == seq![seq![id]] + unicode_groups(
            rest,
            full,
            offset + text_of_ids(seq![id], tokens).len(),
            tokens,
        ),
{
    let ids = seq![id] + rest;
    assert(ids.take(1) =~= seq![id]);
    lemma_group_is_no_longer(ids, full, offset, tokens, 1, 1);
    assert(ids.skip(1) =~= rest);
}

/// A group that decodes to U+FFFD is closed only where the whole text holds that character at the
/// same place.
pub proof fn replacement_characters_must_be_real(full: Seq<char>, offset: nat, decoded: Seq<char>, k: int)
    requires
        0 <= k < decoded.len(),
        decoded[k] == REPLACEMENT,
        forall|j: int| 0 <= j < k ==> decoded[j] != REPLACEMENT,
    ensures
        closes(full, offset, decoded) <==> offset + k < full.len() && full[offset + k]
            == REPLACEMENT,
{
    lemma_first_position(decoded, REPLACEMENT);
    assert(decoded.contains(REPLACEMENT));
    let p = first_position(decoded, REPLACEMENT) as int;
    assert(p == k);
}

/// U+FFFD is the character that stands for what is malformed.
pub proof fn the_replacement_character()
    ensures
        REPLACEMENT as u32 == 0xfffd,
{
}

} // verus!
