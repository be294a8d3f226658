//! The tokenizer of a model: an encoding together with a language and a task.

use vstd::prelude::*;
use vstd::utf8::*;

pub use crate::bpe::bpe_encode;
pub use crate::encoding::Encoding;
pub use crate::languages::{language_code, language_name, to_language_code, LANGUAGE_COUNT};
pub use crate::pieces::split_tiktoken_pieces;
pub use crate::vocabulary::VocabularyError;

use crate::encoding::{bytes_of_ids, ids_fit, ids_of_text, text_of_ids};
use crate::languages::{
    code_at, code_is_found_at_its_place, codes_are_distinct, find_code, first_codes, index_in,
    language_code_of,
};
use crate::roundtrip::{
    complete, decoding_undoes_encoding, encoding_gives_no_special_token, regular,
    regular_vocabularies_are_faithful, regular_vocabularies_rank_below,
};
use crate::special::{
    bracket, bracketed, brackets_are_injective, language_place,
    language_width, lemma_body_shape, no_speech_place, no_timestamps_place, special_body,
    special_bytes, special_count, special_name, start_of_lm_place, start_of_prev_place,
    start_of_transcript, timestamp_place, transcribe_place, translate_place,
};
use crate::symbols::{is_non_speech, non_speech_ids, rising};
use crate::text::{
    chars_of, lines, same_text, string_of, trim, trim_end, trim_start, trimmed, utf8_is_injective,
    TrimSet,
};
use crate::unicode::{lowercase, REPLACEMENT};
use crate::vocabulary::line_entries;
use crate::words::{
    group_tokens, groups_are_complete, groups_of, join_groups, shows_groups, shows_words, words_of,
};

verus! {

/// Why a tokenizer cannot be had, or a token cannot be found.
#[derive(Clone, Copy, Debug, PartialEq, Eq, Structural)]
pub enum TokenizerError {
    /// The language is in no table.
    UnsupportedLanguage,
    /// The language is not among those that the model supports.
    LanguageOutsideModel,
    /// The tokenizer has no language.
    NoLanguage,
    /// No special token is named so.
    LanguageNotFound,
    /// The vocabulary cannot be read.
    Vocabulary(VocabularyError),
}

/// The ids of a list that are below `limit`.
pub open spec fn ids_below(ids: Seq<u32>, limit: u32) -> Seq<u32>
    decreases ids.len(),
{
    if ids.len() == 0 {
        seq![]
    } else if ids.last() < limit {
        ids_below(ids.drop_last(), limit).push(ids.last())
    } else {
        ids_below(ids.drop_last(), limit)
    }
}

/// The text of an optional string.
pub open spec fn opt_text(s: Option<String>) -> Option<Seq<char>> {
    match s {
        Some(s) => Some(s@),
        None => None,
    }
}

/// The text of an optional string slice.
pub open spec fn opt_str(s: Option<&str>) -> Option<Seq<char>> {
    match s {
        Some(s) => Some(s@),
        None => None,
    }
}

/// The tokens that start a transcript: its start, then the language and the task where there are
/// any. A language must be one of the first `num_languages` of the table.
pub open spec fn start_sequence(
    encoding: Encoding,
    num_languages: nat,
    language: Option<Seq<char>>,
    task: Option<Seq<char>>,
) -> Option<Seq<u32>> {
    let sot = seq![encoding.special_id(start_of_transcript())];
    let with_task = |s: Seq<u32>|
        match task {
            Some(t) => s.push(
                encoding.special_id(
                    if t == "transcribe"@ {
                        transcribe_place(encoding.width as nat)
                    } else {
                        translate_place(encoding.width as nat)
                    },
                ),
            ),
            None => s,
        };
    match language {
        Some(l) => match index_in(first_codes(num_languages), l) {
            Some(i) => Some(with_task(sot.push(encoding.special_id(language_place(i as int))))),
            None => None,
        },
        None => Some(with_task(sot)),
    }
}

/// An encoding together with a language and a task.
pub struct Tokenizer {
    pub encoding: Encoding,
    pub num_languages: usize,
    pub language: Option<String>,
    pub task: Option<String>,
    /// The tokens that start a transcript.
    pub sot_sequence: Vec<u32>,
}

/// No language code is a special token unless it is the token of that language.
proof fn lemma_code_is_no_other(width: nat, i: int, k: int)
    requires
        width <= LANGUAGE_COUNT,
        0 <= i < LANGUAGE_COUNT,
        0 <= k < special_count(width),
        special_body(width, k) == code_at(i),
    ensures
        k == language_place(i),
        i < width,
{
    lemma_body_shape(width, k);
    codes_are_distinct(i, i);
    if 2 <= k < language_place(width as int) {
        codes_are_distinct(i, k - 2);
    }
}

/// The text of a special token is its name.
pub proof fn special_tokens_decode_to_their_names(encoding: Encoding, k: int)
    requires
        encoding.wf(),
        0 <= k < special_count(encoding.width as nat),
    ensures
        text_of_ids(seq![encoding.special_id(k)], encoding.vocab@) == special_name(
            encoding.width as nat,
            k,
        ),
{
    let width = encoding.width as nat;
    let one = seq![encoding.special_id(k)];
    let bytes = special_bytes(width, k);
    assert(one.drop_last() =~= Seq::<u32>::empty());
    assert(bytes_of_ids(one.drop_last(), encoding.vocab@) =~= Seq::<u8>::empty());
    assert(one.last() == encoding.special_id(k));
    assert(bytes_of_ids(one, encoding.vocab@) =~= bytes);
    encode_utf8_valid_utf8(special_name(width, k));
    encode_utf8_decode_utf8(special_name(width, k));
}

/// Stripping the brackets gives the code.
proof fn lemma_trim_code(i: int)
    requires
        0 <= i < LANGUAGE_COUNT,
    ensures
        trimmed(bracketed(code_at(i)), TrimSet::Tag) == code_at(i),
{
    codes_are_distinct(i, i);
    let code = code_at(i);
    let s = bracketed(code);
    let a = s.drop_first();
    let b = a.drop_first();
    assert(trim_start(s, TrimSet::Tag) == trim_start(a, TrimSet::Tag));
    assert(trim_start(a, TrimSet::Tag) == trim_start(b, TrimSet::Tag));
    assert(b[0] == code[0]);
    assert(trim_start(b, TrimSet::Tag) == b);
    assert(b =~= code + seq!['|', '>']);
    let c = b.drop_last();
    let d = c.drop_last();
    assert(trim_end(b, TrimSet::Tag) == trim_end(c, TrimSet::Tag));
    assert(trim_end(c, TrimSet::Tag) == trim_end(d, TrimSet::Tag));
    assert(d =~= code);
    assert(trim_end(d, TrimSet::Tag) == d) by {
        assert(d.last() == code[code.len() - 1]);
    }
}

impl Tokenizer {
    /// The encoding is well formed, and the start sequence is that of the language and the task.
    pub open spec fn wf(self) -> bool {
        &&& self.encoding.wf()
        &&& start_sequence(
            self.encoding,
            self.num_languages as nat,
            opt_text(self.language),
            opt_text(self.task),
        ) == Some(self.sot_sequence@)
    }

    /// The number of languages that have a token and that the model supports.
    pub open spec fn language_count(self) -> nat {
        let n = language_width(self.num_languages as nat);
        if n < self.encoding.width {
            n
        } else {
            self.encoding.width as nat
        }
    }

    /// Makes a tokenizer. The language must be one of the first `num_languages` of the table.
    pub fn new(
        encoding: Encoding,
        num_languages: usize,
        language: Option<String>,
        task: Option<String>,
    ) -> (r: Result<Self, TokenizerError>)
        requires
            encoding.wf(),
        ensures
            match start_sequence(
                encoding,
                num_languages as nat,
                opt_text(language),
                opt_text(task),
            ) {
                Some(sequence) => r matches Ok(t) && {
                    &&& t.wf()
                    &&& t.encoding == encoding
                    &&& t.num_languages == num_languages
                    &&& t.language == language
                    &&& t.task == task
                    &&& t.sot_sequence@ == sequence
                },
                None => r == Err::<Self, _>(TokenizerError::LanguageOutsideModel),
            },
    {
        let sot: u32 = encoding.eot_token + 1;
        let mut sot_sequence: Vec<u32> = Vec::new();
        sot_sequence.push(sot);
        assert(sot_sequence@ =~= seq![encoding.special_id(start_of_transcript())]);
        if let Some(lang) = &language {
            match find_code(lang.as_str(), num_languages) {
                Some(i) => {
                    sot_sequence.push(sot + 1 + i as u32);
                },
                None => {
                    return Err(TokenizerError::LanguageOutsideModel);
                },
            }
        }
        if let Some(task_text) = &task {
            let width: u32 = encoding.width as u32;
            if same_text(task_text.as_str(), "transcribe") {
                sot_sequence.push(encoding.eot_token + 3 + width);
            } else {
                sot_sequence.push(encoding.eot_token + 2 + width);
            }
        }
        Ok(Tokenizer { encoding, num_languages, language, task, sot_sequence })
    }

    /// The ids of a text.
    pub fn encode(&self, text: &str) -> (r: Vec<u32>)
        ensures
            r@ == ids_of_text(text@, self.encoding.encoder@),
    {
        self.encoding.encode(text)
    }

    /// The text of a list of ids, special tokens left out.
    pub fn decode(&self, token_ids: &[u32]) -> (r: String)
        ensures
            r@ == text_of_ids(
                ids_below(token_ids@, self.encoding.eot_token),
                self.encoding.vocab@,
            ),
            !valid_utf8(
                bytes_of_ids(
                    ids_below(token_ids@, self.encoding.eot_token),
                    self.encoding.vocab@,
                ),
            ) ==> r@.contains(REPLACEMENT),
    {
        let eot: u32 = self.encoding.eot_token;
        let mut kept: Vec<u32> = Vec::new();
        let mut i: usize = 0;
        while i < token_ids.len()
            invariant
                i <= token_ids@.len(),
                kept@ == ids_below(token_ids@.take(i as int), eot),
            decreases token_ids@.len() - i,
        {
            assert(token_ids@.take(i + 1).drop_last() =~= token_ids@.take(i as int));
            if token_ids[i] < eot {
                kept.push(token_ids[i]);
            }
            i += 1;
        }
        assert(token_ids@.take(i as int) =~= token_ids@);
        self.encoding.decode(&kept)
    }

    /// The text of a list of ids, special tokens by their names.
    pub fn decode_with_timestamps(&self, token_ids: &[u32]) -> (r: String)
        ensures
            r@ == text_of_ids(token_ids@, self.encoding.vocab@),
            !valid_utf8(bytes_of_ids(token_ids@, self.encoding.vocab@)) ==> r@.contains(
                REPLACEMENT,
            ),
    {
        self.encoding.decode(token_ids)
    }

    /// The id of special token `k`.
    fn special(&self, k: usize) -> (r: u32)
        requires
            self.encoding.wf(),
            k < special_count(self.encoding.width as nat),
        ensures
            r == self.encoding.special_id(k as int),
            r == self.encoding.eot_token + k,
            self.encoding.special_tokens@.contains_pair(
                special_bytes(self.encoding.width as nat, k as int),
                r,
            ),
    {
        proof {
            self.encoding.lemma_special_token(k as int);
        }
        self.encoding.eot_token + k as u32
    }

    /// The id of the end of a text.
    pub fn eot(&self) -> (r: u32)
        ensures
            r == self.encoding.eot_token,
    {
        self.encoding.eot_token
    }

    /// The id of the start of a transcript.
    pub fn sot(&self) -> (r: u32)
        requires
            self.encoding.wf(),
        ensures
            r == self.encoding.special_id(start_of_transcript()),
            self.encoding.special_tokens@.contains_pair(
                encode_utf8(bracketed("startoftranscript"@)),
                r,
            ),
    {
        self.special(1)
    }

    /// The id of the task of transcribing.
    pub fn transcribe_token(&self) -> (r: u32)
        requires
            self.encoding.wf(),
        ensures
            r == self.encoding.special_id(transcribe_place(self.encoding.width as nat)),
            self.encoding.special_tokens@.contains_pair(
                encode_utf8(bracketed("transcribe"@)),
                r,
            ),
    {
        self.special(3 + self.encoding.width)
    }

    /// The id of the task of translating.
    pub fn translate_token(&self) -> (r: u32)
        requires
            self.encoding.wf(),
        ensures
            r == self.encoding.special_id(translate_place(self.encoding.width as nat)),
            self.encoding.special_tokens@.contains_pair(encode_utf8(bracketed("translate"@)), r),
    {
        self.special(2 + self.encoding.width)
    }

    /// The id that starts a language model's text.
    pub fn start_of_lm(&self) -> (r: u32)
        requires
            self.encoding.wf(),
        ensures
            r == self.encoding.special_id(start_of_lm_place(self.encoding.width as nat)),
            self.encoding.special_tokens@.contains_pair(encode_utf8(bracketed("startoflm"@)), r),
    {
        self.special(4 + self.encoding.width)
    }

    /// The id that starts the previous text.
    pub fn start_of_prev(&self) -> (r: u32)
        requires
            self.encoding.wf(),
        ensures
            r == self.encoding.special_id(start_of_prev_place(self.encoding.width as nat)),
            self.encoding.special_tokens@.contains_pair(
                encode_utf8(bracketed("startofprev"@)),
                r,
            ),
    {
        self.special(5 + self.encoding.width)
    }

    /// The id of silence.
    pub fn no_speech(&self) -> (r: u32)
        requires
            self.encoding.wf(),
        ensures
            r == self.encoding.special_id(no_speech_place(self.encoding.width as nat)),
            self.encoding.special_tokens@.contains_pair(encode_utf8(bracketed("nospeech"@)), r),
    {
        self.special(6 + self.encoding.width)
    }

    /// The id that turns timestamps off.
    pub fn no_timestamps(&self) -> (r: u32)
        requires
            self.encoding.wf(),
        ensures
            r == self.encoding.special_id(no_timestamps_place(self.encoding.width as nat)),
            self.encoding.special_tokens@.contains_pair(
                encode_utf8(bracketed("notimestamps"@)),
                r,
            ),
    {
        self.special(7 + self.encoding.width)
    }

    /// The id of the timestamp of 0 s, which is the first timestamp.
    pub fn timestamp_begin(&self) -> (r: u32)
        requires
            self.encoding.wf(),
        ensures
            r == self.encoding.special_id(timestamp_place(self.encoding.width as nat, 0)),
            self.encoding.special_tokens@.contains_pair(
                special_bytes(
                    self.encoding.width as nat,
                    timestamp_place(self.encoding.width as nat, 0),
                ),
                r,
            ),
    {
        self.special(8 + self.encoding.width)
    }

    /// The tokens that start a transcript without timestamps.
    pub fn sot_sequence_including_notimestamps(&self) -> (r: Vec<u32>)
        requires
            self.encoding.wf(),
        ensures
            r@ == self.sot_sequence@.push(
                self.encoding.special_id(no_timestamps_place(self.encoding.width as nat)),
            ),
    {
        let mut r = self.sot_sequence.clone();
        r.push(self.no_timestamps());
        r
    }

    /// The id of the tokenizer's language.
    pub fn language_token(&self) -> (r: Result<u32, TokenizerError>)
        requires
            self.encoding.wf(),
        ensures
            match self.language {
                None => r == Err::<u32, _>(TokenizerError::NoLanguage),
                Some(language) => match r {
                    Ok(id) => exists|k: int|
                        0 <= k < special_count(self.encoding.width as nat) && #[trigger]
                            special_body(self.encoding.width as nat, k) == language@ && id
                            == self.encoding.special_id(k),
                    Err(e) => e == TokenizerError::LanguageNotFound && forall|k: int|
                        0 <= k < special_count(self.encoding.width as nat) ==> #[trigger]
                            special_body(self.encoding.width as nat, k) != language@,
                },
            },
    {
        match &self.language {
            Some(language) => self.to_language_token(language.as_str()),
            None => Err(TokenizerError::NoLanguage),
        }
    }

    /// The id of the special token named `language`.
    pub fn to_language_token(&self, language: &str) -> (r: Result<u32, TokenizerError>)
        requires
            self.encoding.wf(),
        ensures
            match r {
                Ok(id) => exists|k: int|
                    0 <= k < special_count(self.encoding.width as nat) && #[trigger] special_body(
                        self.encoding.width as nat,
                        k,
                    ) == language@ && id == self.encoding.special_id(k),
                Err(e) => e == TokenizerError::LanguageNotFound && forall|k: int|
                    0 <= k < special_count(self.encoding.width as nat) ==> #[trigger] special_body(
                        self.encoding.width as nat,
                        k,
                    ) != language@,
            },
    {
        let chars = chars_of(language);
        let key = bracket(&chars);
        let r = self.encoding.special_tokens.get(key.as_str().as_bytes());
        proof {
            let e = self.encoding;
            let width = e.width as nat;
            let bytes = encode_utf8(bracketed(language@));
            if exists|k: int|
                0 <= k < special_count(width) && #[trigger] special_body(width, k) == language@ {
                let k = choose|k: int|
                    0 <= k < special_count(width) && #[trigger] special_body(width, k)
                        == language@;
                assert(special_bytes(width, k) == bytes);
                e.lemma_special_token(k);
            } else {
                assert forall|k: int| 0 <= k < special_count(width) implies #[trigger]
                    special_bytes(width, k) != bytes by {
                    if special_bytes(width, k) == bytes {
                        utf8_is_injective(special_name(width, k), bracketed(language@));
                        brackets_are_injective(special_body(width, k), language@);
                    }
                }
                e.lemma_no_special_token(bytes);
            }
        }
        match r {
            Some(id) => Ok(id),
            None => Err(TokenizerError::LanguageNotFound),
        }
    }

    /// The ids of the languages that the model supports, in the order of the table.
    pub fn all_language_tokens(&self) -> (r: Vec<u32>)
        requires
            self.encoding.wf(),
        ensures
            r@ == Seq::new(
                self.language_count(),
                |i: int| self.encoding.special_id(language_place(i)),
            ),
    {
        let end: usize = if self.num_languages < LANGUAGE_COUNT {
            self.num_languages
        } else {
            LANGUAGE_COUNT
        };
        let ghost width = self.encoding.width as nat;
        let mut ids: Vec<u32> = Vec::new();
        let mut i: usize = 0;
        while i < end
            invariant
                i <= end <= LANGUAGE_COUNT,
                end == language_width(self.num_languages as nat),
                self.encoding.wf(),
                width == self.encoding.width,
                ids@ == Seq::new(
                    if i < width {
                        i as nat
                    } else {
                        width
                    },
                    |i: int| self.encoding.special_id(language_place(i)),
                ),
            decreases end - i,
        {
            let found = self.to_language_token(language_code(i));
            proof {
                if i < width {
                    assert(special_body(width, language_place(i as int)) == code_at(i as int));
                }
                if let Ok(id) = found {
                    let k = choose|k: int|
                        0 <= k < special_count(width) && #[trigger] special_body(width, k)
                            == code_at(i as int) && id == self.encoding.special_id(k);
                    lemma_code_is_no_other(width, i as int, k);
                }
            }
            if let Ok(id) = found {
                ids.push(id);
            }
            i += 1;
            assert(ids@ =~= Seq::new(
                if i < width {
                    i as nat
                } else {
                    width
                },
                |i: int| self.encoding.special_id(language_place(i)),
            ));
        }
        ids
    }

    /// The codes of the languages that the model supports, in the order of the table.
    pub fn all_language_codes(&self) -> (r: Vec<String>)
        requires
            self.encoding.wf(),
        ensures
            r@.len() == self.language_count(),
            forall|i: int| 0 <= i < r@.len() ==> (#[trigger] r@[i])@ == code_at(i),
    {
        let ids = self.all_language_tokens();
        let ghost width = self.encoding.width as nat;
        let mut codes: Vec<String> = Vec::new();
        let mut i: usize = 0;
        while i < ids.len()
            invariant
                i <= ids@.len(),
                self.encoding.wf(),
                width == self.encoding.width,
                self.language_count() <= width,
                ids@ == Seq::new(
                    self.language_count(),
                    |i: int| self.encoding.special_id(language_place(i)),
                ),
                codes@.len() == i,
                forall|j: int| 0 <= j < codes@.len() ==> (#[trigger] codes@[j])@ == code_at(j),
            decreases ids@.len() - i,
        {
            let one = &ids[i..i + 1];
            let name = self.decode_with_timestamps(one);
            let chars = chars_of(name.as_str());
            proof {
                let k = language_place(i as int);
                assert(one@ =~= seq![self.encoding.special_id(k)]);
                special_tokens_decode_to_their_names(self.encoding, k);
                lemma_trim_code(i as int);
            }
            let code = trim(&chars, TrimSet::Tag);
            codes.push(string_of(code));
            i += 1;
        }
        codes
    }

    /// The tokens that are kept out of a transcript, in rising order.
    pub fn non_speech_tokens(&self) -> (r: Vec<u32>)
        ensures
            rising(r@),
            forall|id: u32| #[trigger]
                r@.contains(id) <==> is_non_speech(self.encoding.encoder@, id),
    {
        non_speech_ids(&self.encoding)
    }

    /// Whether the tokenizer's language is written without spaces between words.
    pub open spec fn unspaced(self) -> bool {
        match self.language {
            Some(l) => l@ == "zh"@ || l@ == "ja"@ || l@ == "th"@ || l@ == "lo"@ || l@ == "my"@
                || l@ == "yue"@,
            None => false,
        }
    }

    /// Groups tokens into words: at spaces, or by characters in a language without spaces. Where
    /// the tokens are those of a whole text, every one of them is in a word.
    pub fn split_to_word_tokens(&self, tokens: &[u32]) -> (r: (Vec<String>, Vec<Vec<u32>>))
        ensures
            ({
                let vocab = self.encoding.vocab@;
                let groups = groups_of(tokens@, vocab);
                if self.unspaced() {
                    shows_groups(r.0@, r.1@, groups, vocab)
                } else {
                    shows_words(r.0@, r.1@, words_of(groups, vocab, self.encoding.eot_token))
                }
            }),
            groups_are_complete(tokens@, self.encoding.vocab@),
    {
        let unspaced = match &self.language {
            Some(l) => same_text(l.as_str(), "zh") || same_text(l.as_str(), "ja") || same_text(
                l.as_str(),
                "th",
            ) || same_text(l.as_str(), "lo") || same_text(l.as_str(), "my") || same_text(
                l.as_str(),
                "yue",
            ),
            None => false,
        };
        if unspaced {
            self.split_tokens_on_unicode(tokens)
        } else {
            self.split_tokens_on_spaces(tokens)
        }
    }

    /// Groups tokens into the shortest runs that make up whole characters. Where the tokens are
    /// those of a whole text, every one of them is in a group.
    pub fn split_tokens_on_unicode(&self, tokens: &[u32]) -> (r: (Vec<String>, Vec<Vec<u32>>))
        ensures
            shows_groups(
                r.0@,
                r.1@,
                groups_of(tokens@, self.encoding.vocab@),
                self.encoding.vocab@,
            ),
            groups_are_complete(tokens@, self.encoding.vocab@),
    {
        group_tokens(&self.encoding, tokens)
    }

    /// Groups tokens into words at spaces, punctuation and special tokens.
    pub fn split_tokens_on_spaces(&self, tokens: &[u32]) -> (r: (Vec<String>, Vec<Vec<u32>>))
        ensures
            shows_words(
                r.0@,
                r.1@,
                words_of(
                    groups_of(tokens@, self.encoding.vocab@),
                    self.encoding.vocab@,
                    self.encoding.eot_token,
                ),
            ),
            groups_are_complete(tokens@, self.encoding.vocab@),
    {
        let (texts, lists) = self.split_tokens_on_unicode(tokens);
        join_groups(
            &texts,
            &lists,
            self.encoding.eot_token,
            Ghost(groups_of(tokens@, self.encoding.vocab@)),
            Ghost(self.encoding.vocab@),
        )
    }
}

/// The code of a language given by code, name or alias, in any case.
pub open spec fn resolved_language(language: Option<Seq<char>>) -> Result<
    Option<Seq<char>>,
    TokenizerError,
> {
    match language {
        Some(l) => match language_code_of(lowercase(l)) {
            Some(code) => Ok(Some(code)),
            None => Err(TokenizerError::UnsupportedLanguage),
        },
        None => Ok(None),
    }
}

/// The name of the vocabulary of a model.
pub open spec fn vocabulary_name(multilingual: bool) -> Seq<char> {
    if multilingual {
        "multilingual"@
    } else {
        "gpt2"@
    }
}

/// `value`, or `default` where there is none, of a multilingual model; none of another.
pub open spec fn multilingual_setting(
    multilingual: bool,
    value: Option<Seq<char>>,
    default: Seq<char>,
) -> Option<Seq<char>> {
    if multilingual {
        match value {
            Some(v) => Some(v),
            None => Some(default),
        }
    } else {
        None
    }
}

/// Finds the code of a language given by code, name or alias, in any case.
pub fn resolve_language(language: Option<&str>) -> (r: Result<Option<String>, TokenizerError>)
    ensures
        match r {
            Ok(l) => resolved_language(opt_str(language)) == Ok::<_, TokenizerError>(opt_text(l)),
            Err(e) => resolved_language(opt_str(language)) == Err::<Option<Seq<char>>, _>(e),
        },
{
    match language {
        Some(l) => {
            let lower = l.to_lowercase();
            match to_language_code(lower.as_str()) {
                Some(code) => Ok(Some(code.to_owned())),
                None => Err(TokenizerError::UnsupportedLanguage),
            }
        },
        None => Ok(None),
    }
}

/// The name of the vocabulary of a model.
pub fn encoding_name(multilingual: bool) -> (r: &'static str)
    ensures
        r@ == vocabulary_name(multilingual),
{
    if multilingual {
        "multilingual"
    } else {
        "gpt2"
    }
}

/// Makes the tokenizer of a model, given the content of its vocabulary.
///
/// The language may be given by code, name or alias, in any case. A multilingual model has a
/// language and a task, by default English and transcribing; another model has neither.
pub fn get_tokenizer(
    multilingual: bool,
    num_languages: usize,
    language: Option<&str>,
    task: Option<&str>,
    vocabulary: &str,
) -> (r: Result<Tokenizer, TokenizerError>)
    ensures
        match resolved_language(opt_str(language)) {
            Err(e) => r == Err::<Tokenizer, _>(e),
            Ok(code) => match line_entries(lines(vocabulary@)) {
                Err(e) => r == Err::<Tokenizer, _>(TokenizerError::Vocabulary(e)),
                Ok(file) => {
                    let lang = multilingual_setting(multilingual, code, "en"@);
                    let job = multilingual_setting(multilingual, opt_str(task), "transcribe"@);
                    if !ids_fit(file, num_languages as nat) {
                        r == Err::<Tokenizer, _>(
                            TokenizerError::Vocabulary(VocabularyError::TooManyTokens),
                        )
                    } else if lang is Some && index_in(
                        first_codes(num_languages as nat),
                        lang->0,
                    ) is None {
                        r == Err::<Tokenizer, _>(TokenizerError::LanguageOutsideModel)
                    } else {
                        r matches Ok(t) && {
                            &&& t.wf()
                            &&& t.encoding.built_from(
                                file,
                                vocabulary_name(multilingual),
                                num_languages as nat,
                            )
                            &&& t.num_languages == num_languages
                            &&& opt_text(t.language) == lang
                            &&& opt_text(t.task) == job
                        }
                    }
                },
            },
        },
{
    let code = match resolve_language(language) {
        Ok(code) => code,
        Err(e) => {
            return Err(e);
        },
    };
    let name = encoding_name(multilingual);
    let (lang, job): (Option<String>, Option<String>) = if multilingual {
        (
            Some(
                match code {
                    Some(c) => c,
                    None => "en".to_owned(),
                },
            ),
            Some(
                match task {
                    Some(t) => t.to_owned(),
                    None => "transcribe".to_owned(),
                },
            ),
        )
    } else {
        (None, None)
    };
    match Encoding::from_tiktoken_file(vocabulary, name, num_languages) {
        Ok(encoding) => Tokenizer::new(encoding, num_languages, lang, job),
        Err(e) => Err(TokenizerError::Vocabulary(e)),
    }
}

/// The language token of a language that the model supports is the one at its place behind the
/// start of a transcript, both by name and in the start sequence.
pub proof fn language_tokens_are_positional(t: Tokenizer, i: int, k: int)
    requires
        t.wf(),
        0 <= i < t.language_count(),
        opt_text(t.language) == Some(code_at(i)),
        0 <= k < special_count(t.encoding.width as nat),
        special_body(t.encoding.width as nat, k) == code_at(i),
    ensures
        t.encoding.special_id(k) == t.encoding.special_id(start_of_transcript()) + 1 + i,
        t.sot_sequence@.len() >= 2,
        t.sot_sequence@[1] == t.encoding.special_id(k),
{
    lemma_code_is_no_other(t.encoding.width as nat, i, k);
    code_is_found_at_its_place(i, t.num_languages as nat);
}

/// A language of the table that is not among the first `num_languages` has no start sequence; one
/// that is has the token at its place, which is never that of a task.
pub proof fn languages_outside_the_model_are_rejected(
    encoding: Encoding,
    num_languages: nat,
    i: int,
    task: Option<Seq<char>>,
)
    requires
        encoding.wf(),
        encoding.width == language_width(num_languages),
        0 <= i < LANGUAGE_COUNT,
    ensures
        start_sequence(encoding, num_languages, Some(code_at(i)), task) is None <==> i
            >= num_languages,
        start_sequence(encoding, num_languages, Some(code_at(i)), task) matches Some(s)
            ==> s.len() >= 2 && encoding.special_id(start_of_transcript()) < s[1]
            < encoding.special_id(translate_place(encoding.width as nat)),
{
    code_is_found_at_its_place(i, num_languages);
}

/// A tokenizer without a language starts with the start of a transcript alone, or with the task
/// behind it.
pub proof fn start_without_language(t: Tokenizer)
    requires
        t.wf(),
        t.language is None,
    ensures
        t.sot_sequence@.len() == 1 + (if t.task is Some {
            1int
        } else {
            0int
        }),
        t.sot_sequence@[0] == t.encoding.special_id(start_of_transcript()),
{
}

/// A special token anywhere in a list changes nothing of the text that `Tokenizer::decode` gives.
pub proof fn decoding_leaves_special_tokens_out(
    before: Seq<u32>,
    special: u32,
    after: Seq<u32>,
    eot: u32,
)
    requires
        special >= eot,
    ensures
        ids_below(before.push(special) + after, eot) == ids_below(before + after, eot),
    decreases after.len(),
{
    if after.len() == 0 {
        assert(before.push(special) + after =~= before.push(special));
        assert(before.push(special).drop_last() =~= before);
        assert(before + after =~= before);
    } else {
        decoding_leaves_special_tokens_out(before, special, after.drop_last(), eot);
        assert((before.push(special) + after).drop_last() =~= before.push(special)
            + after.drop_last());
        assert((before + after).drop_last() =~= before + after.drop_last());
    }
}

/// Ids that are all below the limit are all kept.
pub proof fn ids_below_keeps(ids: Seq<u32>, limit: u32)
    requires
        forall|i: int| 0 <= i < ids.len() ==> #[trigger] ids[i] < limit,
    ensures
        ids_below(ids, limit) == ids,
    decreases ids.len(),
{
    if ids.len() > 0 {
        assert(ids[ids.len() - 1] < limit);
        ids_below_keeps(ids.drop_last(), limit);
        assert(ids.drop_last().push(ids.last()) =~= ids);
    } else {
        assert(ids_below(ids, limit) =~= ids);
    }
}

/// With a vocabulary that holds the ranks from 0 once each and has every byte, a tokenizer's `decode`
/// gives back what its `encode` was given, for every text.
pub proof fn decode_undoes_encode(
    encoding: Encoding,
    file: Seq<(Seq<u8>, u32)>,
    name: Seq<char>,
    num_languages: nat,
    text: Seq<char>,
)
    requires
        encoding.built_from(file, name, num_languages),
        regular(file, language_width(num_languages)),
        complete(encoding.encoder@),
    ensures
        text_of_ids(
            ids_below(ids_of_text(text, encoding.encoder@), encoding.eot_token),
            encoding.vocab@,
        ) == text,
        text_of_ids(ids_of_text(text, encoding.encoder@), encoding.vocab@) == text,
{
    let width = language_width(num_languages);
    regular_vocabularies_are_faithful(file, width);
    regular_vocabularies_rank_below(file, width);
    decoding_undoes_encoding(text, encoding.encoder@, encoding.vocab@);
    encoding_gives_no_special_token(text, encoding.encoder@, width, file.len());
    ids_below_keeps(ids_of_text(text, encoding.encoder@), encoding.eot_token);
}

} // verus!
