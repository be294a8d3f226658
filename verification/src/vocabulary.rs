//! Reading a vocabulary: lines of a token in Base64 and its rank.

use vstd::prelude::*;

use crate::numbers::{bounded_integer, decimal, decimal_reads_back, is_digit, parse_u32};
use crate::text::{
    after_word, chars_of, first_position, first_word, lemma_first_position, lines, next_line,
    next_word, same_text, string_of, trim_start, white_space, word_len, TrimSet,
};

verus! {

/// Why a vocabulary cannot be read.
#[derive(Clone, Copy, Debug, PartialEq, Eq, Structural)]
pub enum VocabularyError {
    /// A line holds nothing but white space.
    MissingToken,
    /// A line holds a token without a rank.
    MissingRank,
    /// A rank is no unsigned 32-bit number.
    InvalidRank,
    /// A token is not Base64.
    InvalidBase64,
    /// The ids of the special tokens would not fit in 32 bits.
    TooManyTokens,
}

/// The value of a Base64 digit.
pub open spec fn base64_value(c: char) -> Option<int> {
    let u = c as int;
    if 'A' as int <= u <= 'Z' as int {
        Some(u - 'A' as int)
    } else if 'a' as int <= u <= 'z' as int {
        Some(u - 'a' as int + 26)
    } else if '0' as int <= u <= '9' as int {
        Some(u - '0' as int + 52)
    } else if c == '+' {
        Some(62)
    } else if c == '/' {
        Some(63)
    } else {
        None
    }
}

/// The bytes that a text in Base64 stands for: three for every four digits. The last four
/// characters may be three digits, for two bytes, or two digits, for one byte, filled up with `=`;
/// the bits of the last digit that are not used are 0.
pub open spec fn base64_bytes(t: Seq<char>) -> Option<Seq<u8>>
    decreases t.len(),
{
    if t.len() == 0 {
        Some(seq![])
    } else if t.len() < 4 {
        None
    } else {
        let a = base64_value(t[0]);
        let b = base64_value(t[1]);
        let c = base64_value(t[2]);
        let d = base64_value(t[3]);
        if a is None || b is None {
            None
        } else if t.len() == 4 && t[2] == '=' && t[3] == '=' {
            if b->0 % 16 == 0 {
                Some(seq![(a->0 * 4 + b->0 / 16) as u8])
            } else {
                None
            }
        } else if c is None {
            None
        } else if t.len() == 4 && t[3] == '=' {
            if c->0 % 4 == 0 {
                Some(seq![(a->0 * 4 + b->0 / 16) as u8, (b->0 % 16 * 16 + c->0 / 4) as u8])
            } else {
                None
            }
        } else if d is None {
            None
        } else {
            match base64_bytes(t.skip(4)) {
                Some(rest) => Some(
                    seq![
                        (a->0 * 4 + b->0 / 16) as u8,
                        (b->0 % 16 * 16 + c->0 / 4) as u8,
                        (c->0 % 4 * 64 + d->0) as u8,
                    ] + rest,
                ),
                None => None,
            }
        }
    }
}

/// The error of the `base64` crate.
#[verifier::external_type_specification]
#[verifier::external_body]
pub struct ExDecodeError(base64::DecodeError);

/// `base64::Engine::decode` of the engine `STANDARD`: the bytes that the text stands for in the
/// standard alphabet, with the padding in full and no bits left over; an error where it stands
/// for none.
#[verifier::external_body]
fn decode_base64(text: &str) -> (r: Result<Vec<u8>, base64::DecodeError>)
    ensures
        match r {
            Ok(bytes) => base64_bytes(text@) == Some(bytes@),
            Err(_) => base64_bytes(text@) is None,
        },
{
    base64::Engine::decode(&base64::engine::general_purpose::STANDARD, text)
}

/// The Base64 digit of a value below 64.
pub open spec fn base64_digit(v: int) -> char {
    if v < 26 {
        ('A' as int + v) as char
    } else if v < 52 {
        ('a' as int + v - 26) as char
    } else if v < 62 {
        ('0' as int + v - 52) as char
    } else if v == 62 {
        '+'
    } else {
        '/'
    }
}

/// Bytes in Base64.
pub open spec fn base64_text(bytes: Seq<u8>) -> Seq<char>
    decreases bytes.len(),
{
    if bytes.len() == 0 {
        seq![]
    } else {
        let x = bytes[0] as int;
        let y = if bytes.len() > 1 {
            bytes[1] as int
        } else {
            0
        };
        let z = if bytes.len() > 2 {
            bytes[2] as int
        } else {
            0
        };
        let head = seq![
            base64_digit(x / 4),
            base64_digit(x % 4 * 16 + y / 16),
            if bytes.len() > 1 {
                base64_digit(y % 16 * 4 + z / 64)
            } else {
                '='
            },
            if bytes.len() > 2 {
                base64_digit(z % 64)
            } else {
                '='
            },
        ];
        if bytes.len() > 3 {
            head + base64_text(bytes.skip(3))
        } else {
            head
        }
    }
}

proof fn lemma_digit(v: int)
    requires
        0 <= v < 64,
    ensures
        base64_value(base64_digit(v)) == Some(v),
        base64_digit(v) != '=',
{
}

/// Bytes that were written in Base64 are read back.
pub proof fn base64_reads_back(bytes: Seq<u8>)
    ensures
        base64_bytes(base64_text(bytes)) == Some(bytes),
        bytes.len() > 0 ==> base64_text(bytes).len() >= 4,
    decreases bytes.len(),
{
    if bytes.len() > 0 {
        let x = bytes[0] as int;
        let y = if bytes.len() > 1 {
            bytes[1] as int
        } else {
            0
        };
        let z = if bytes.len() > 2 {
            bytes[2] as int
        } else {
            0
        };
        lemma_digit(x / 4);
        lemma_digit(x % 4 * 16 + y / 16);
        lemma_digit(y % 16 * 4 + z / 64);
        lemma_digit(z % 64);
        let t = base64_text(bytes);
        if bytes.len() > 3 {
            base64_reads_back(bytes.skip(3));
            assert(t.skip(4) =~= base64_text(bytes.skip(3)));
            assert(seq![bytes[0], bytes[1], bytes[2]] + bytes.skip(3) =~= bytes);
        } else if bytes.len() == 3 {
            assert(t.skip(4) =~= seq![]);
            assert(seq![bytes[0], bytes[1], bytes[2]] + Seq::<u8>::empty() =~= bytes);
        } else if bytes.len() == 2 {
            assert(seq![bytes[0], bytes[1]] =~= bytes);
        } else {
            assert(seq![bytes[0]] =~= bytes);
        }
    } else {
        assert(bytes =~= seq![]);
    }
}

/// The token and the rank on a line.
pub open spec fn line_parts(line: Seq<char>) -> Result<(Seq<char>, u32), VocabularyError> {
    let token = first_word(line);
    let rank = first_word(after_word(line));
    if token.len() == 0 {
        Err(VocabularyError::MissingToken)
    } else if rank.len() == 0 {
        Err(VocabularyError::MissingRank)
    } else {
        match bounded_integer(rank, false, 0, u32::MAX as int) {
            Some(v) => Ok((token, v as u32)),
            None => Err(VocabularyError::InvalidRank),
        }
    }
}

/// The bytes of a token, where `decoded` is what Base64 decoding makes of it. A lone `=` stands
/// for the empty token.
pub open spec fn token_of(token: Seq<char>, decoded: Option<Seq<u8>>) -> Result<
    Seq<u8>,
    VocabularyError,
> {
    if token == "="@ {
        Ok(seq![])
    } else {
        match decoded {
            Some(bytes) => Ok(bytes),
            None => Err(VocabularyError::InvalidBase64),
        }
    }
}

/// The token and rank that a line stands for.
pub open spec fn line_entry(line: Seq<char>) -> Result<(Seq<u8>, u32), VocabularyError> {
    match line_parts(line) {
        Ok((token, rank)) => match token_of(token, base64_bytes(token)) {
            Ok(bytes) => Ok((bytes, rank)),
            Err(e) => Err(e),
        },
        Err(e) => Err(e),
    }
}

/// The tokens and ranks of a list of lines, empty lines left out; or the first error.
pub open spec fn line_entries(lines: Seq<Seq<char>>) -> Result<
    Seq<(Seq<u8>, u32)>,
    VocabularyError,
>
    decreases lines.len(),
{
    if lines.len() == 0 {
        Ok(seq![])
    } else {
        match line_entries(lines.drop_last()) {
            Ok(before) => if lines.last().len() == 0 {
                Ok(before)
            } else {
                match line_entry(lines.last()) {
                    Ok(entry) => Ok(before.push(entry)),
                    Err(e) => Err(e),
                }
            },
            Err(e) => Err(e),
        }
    }
}

/// The tokens and ranks, taken by their contents.
pub open spec fn entry_views(entries: Seq<(Vec<u8>, u32)>) -> Seq<(Seq<u8>, u32)> {
    entries.map_values(|e: (Vec<u8>, u32)| (e.0@, e.1))
}

/// An error on a line is the error of every list of lines that starts with it.
proof fn lemma_first_error(all: Seq<Seq<char>>, n: int)
    requires
        0 <= n <= all.len(),
        line_entries(all.take(n)) is Err,
    ensures
        line_entries(all) == line_entries(all.take(n)),
    decreases all.len() - n,
{
    if n < all.len() {
        assert(all.take(n + 1).drop_last() =~= all.take(n));
        lemma_first_error(all, n + 1);
    } else {
        assert(all.take(n) =~= all);
    }
}

/// Splits a line into its token and its rank.
pub fn split_line(line: &[char]) -> (r: Result<(String, u32), VocabularyError>)
    ensures
        match r {
            Ok((token, rank)) => line_parts(line@) == Ok::<_, VocabularyError>((token@, rank)),
            Err(e) => line_parts(line@) == Err::<(Seq<char>, u32), _>(e),
        },
{
    let (token, rest) = next_word(line);
    if token.len() == 0 {
        return Err(VocabularyError::MissingToken);
    }
    let (rank, _) = next_word(rest);
    if rank.len() == 0 {
        return Err(VocabularyError::MissingRank);
    }
    match parse_u32(rank) {
        Some(rank) => Ok((string_of(token), rank)),
        None => Err(VocabularyError::InvalidRank),
    }
}

/// The bytes of a token, given what Base64 decoding makes of it.
pub fn token_from(token: &str, decoded: Option<Vec<u8>>) -> (r: Result<Vec<u8>, VocabularyError>)
    ensures
        match r {
            Ok(bytes) => token_of(
                token@,
                match decoded {
                    Some(d) => Some(d@),
                    None => None,
                },
            ) == Ok::<_, VocabularyError>(bytes@),
            Err(e) => token_of(
                token@,
                match decoded {
                    Some(d) => Some(d@),
                    None => None,
                },
            ) == Err::<Seq<u8>, _>(e),
        },
{
    if same_text(token, "=") {
        let bytes: Vec<u8> = Vec::new();
        assert(bytes@ =~= seq![]);
        return Ok(bytes);
    }
    match decoded {
        Some(bytes) => Ok(bytes),
        None => Err(VocabularyError::InvalidBase64),
    }
}

/// Reads one line of a vocabulary.
pub fn read_line(line: &[char]) -> (r: Result<(Vec<u8>, u32), VocabularyError>)
    ensures
        match r {
            Ok((bytes, rank)) => line_entry(line@) == Ok::<_, VocabularyError>((bytes@, rank)),
            Err(e) => line_entry(line@) == Err::<(Seq<u8>, u32), _>(e),
        },
{
    match split_line(line) {
        Ok((token, rank)) => {
            let decoded = match decode_base64(&token) {
                Ok(bytes) => Some(bytes),
                Err(_) => None,
            };
            match token_from(&token, decoded) {
                Ok(bytes) => Ok((bytes, rank)),
                Err(e) => Err(e),
            }
        },
        Err(e) => Err(e),
    }
}

/// Reads the lines of a vocabulary.
pub fn read_vocabulary(content: &str) -> (r: Result<Vec<(Vec<u8>, u32)>, VocabularyError>)
    ensures
        match r {
            Ok(entries) => line_entries(lines(content@)) == Ok::<_, VocabularyError>(
                entry_views(entries@),
            ),
            Err(e) => line_entries(lines(content@)) == Err::<Seq<(Seq<u8>, u32)>, _>(e),
        },
{
    let chars = chars_of(content);
    let ghost all = lines(content@);
    let ghost mut n: int = 0;
    let mut rest: &[char] = &chars;
    let mut entries: Vec<(Vec<u8>, u32)> = Vec::new();
    assert(all.take(0) =~= Seq::<Seq<char>>::empty());
    assert(entry_views(entries@) =~= Seq::<(Seq<u8>, u32)>::empty());
    while rest.len() > 0
        invariant
            all == lines(content@),
            0 <= n <= all.len(),
            all == all.take(n) + lines(rest@),
            line_entries(all.take(n)) == Ok::<_, VocabularyError>(entry_views(entries@)),
        decreases rest@.len(),
    {
        let (line, after) = next_line(rest);
        proof {
            assert(lines(rest@)[0] == line@);
            assert(all[n] == line@);
            assert(all.take(n + 1) =~= all.take(n).push(line@));
            assert(all.take(n + 1).drop_last() =~= all.take(n));
            assert(all =~= all.take(n + 1) + lines(after@));
        }
        if line.len() > 0 {
            match read_line(line) {
                Ok(entry) => {
                    let ghost before = entry_views(entries@);
                    entries.push(entry);
                    assert(entry_views(entries@) =~= before.push((entry.0@, entry.1)));
                },
                Err(e) => {
                    proof {
                        lemma_first_error(all, n + 1);
                    }
                    return Err(e);
                },
            }
        }
        proof {
            n = n + 1;
        }
        rest = after;
    }
    assert(all.take(n) =~= all) by {
        assert(lines(rest@).len() == 0);
    }
    Ok(entries)
}

// Writing what is read.

/// A token as a vocabulary holds it: in Base64, and `=` for the empty one.
pub open spec fn written_token(bytes: Seq<u8>) -> Seq<char> {
    if bytes.len() == 0 {
        "="@
    } else {
        base64_text(bytes)
    }
}

/// A line of a vocabulary: a token, a space and a rank.
pub open spec fn written_line(entry: (Seq<u8>, u32)) -> Seq<char> {
    written_token(entry.0) + seq![' '] + decimal(entry.1 as nat)
}

/// A vocabulary: a line for every token and its rank.
pub open spec fn written_vocabulary(entries: Seq<(Seq<u8>, u32)>) -> Seq<char>
    decreases entries.len(),
{
    if entries.len() == 0 {
        seq![]
    } else {
        written_line(entries[0]).push('\n') + written_vocabulary(entries.drop_first())
    }
}

/// Base64 has no white space.
proof fn lemma_no_white_space(bytes: Seq<u8>)
    ensures
        forall|i: int|
            0 <= i < base64_text(bytes).len() ==> !white_space(#[trigger] base64_text(bytes)[i]),
    decreases bytes.len(),
{
    if bytes.len() > 3 {
        lemma_no_white_space(bytes.skip(3));
        let rest = base64_text(bytes.skip(3));
        assert forall|i: int| 0 <= i < base64_text(bytes).len() implies !white_space(
            #[trigger] base64_text(bytes)[i],
        ) by {
            if i >= 4 {
                assert(base64_text(bytes)[i] == rest[i - 4]);
            }
        }
    }
}

/// The first word of a text that starts with a word.
proof fn lemma_first_word(word: Seq<char>, rest: Seq<char>)
    requires
        forall|i: int| 0 <= i < word.len() ==> !white_space(#[trigger] word[i]),
        rest.len() > 0 ==> white_space(rest[0]),
    ensures
        word_len(word + rest) == word.len(),
        word.len() > 0 ==> first_word(word + rest) == word && after_word(word + rest) == rest,
    decreases word.len(),
{
    let s = word + rest;
    if word.len() > 0 {
        assert(s[0] == word[0]);
        assert(s.drop_first() =~= word.drop_first() + rest);
        lemma_first_word(word.drop_first(), rest);
        assert(trim_start(s, TrimSet::White) == s);
        assert(s.take(word.len() as int) =~= word);
        assert(s.skip(word.len() as int) =~= rest);
    } else {
        assert(s =~= rest);
    }
}

/// A line that was written is read back.
pub proof fn lines_read_back(entry: (Seq<u8>, u32))
    ensures
        line_entry(written_line(entry)) == Ok::<_, VocabularyError>(entry),
        forall|i: int|
            0 <= i < written_line(entry).len() ==> (#[trigger] written_line(entry)[i]) != '\n'
                && written_line(entry)[i] != '\r',
        written_line(entry).len() > 0,
{
    let token = written_token(entry.0);
    let rank = decimal(entry.1 as nat);
    let line = written_line(entry);
    reveal_strlit("=");
    base64_reads_back(entry.0);
    lemma_no_white_space(entry.0);
    decimal_reads_back(entry.1 as nat);
    assert(forall|i: int| 0 <= i < token.len() ==> !white_space(#[trigger] token[i]));
    assert forall|i: int| 0 <= i < rank.len() implies !white_space(#[trigger] rank[i]) by {
        assert(is_digit(rank[i]));
    }
    let rest = seq![' '] + rank;
    assert(line =~= token + rest);
    lemma_first_word(token, rest);
    assert(rest.drop_first() =~= rank);
    assert(trim_start(rest, TrimSet::White) == trim_start(rank, TrimSet::White));
    assert(rank[0] != ' ');
    assert(trim_start(rank, TrimSet::White) == rank);
    assert(rank + Seq::<char>::empty() =~= rank);
    lemma_first_word(rank, Seq::empty());
    assert(first_word(rest) == rank);
    if entry.0.len() > 0 {
        assert(token.len() >= 4);
        assert(token != "="@);
    } else {
        assert(entry.0 =~= seq![]);
    }
    assert forall|i: int| 0 <= i < line.len() implies (#[trigger] line[i]) != '\n' && line[i]
        != '\r' by {
        if i < token.len() {
            assert(line[i] == token[i]);
        } else if i > token.len() {
            assert(line[i] == rank[i - token.len() - 1]);
        }
    }
}

/// A vocabulary that was written is read back.
pub proof fn vocabularies_read_back(entries: Seq<(Seq<u8>, u32)>)
    ensures
        line_entries(lines(written_vocabulary(entries))) == Ok::<_, VocabularyError>(entries),
{
    lemma_written_lines(entries);
    lemma_written_entries(entries);
}

/// The lines of a written vocabulary.
proof fn lemma_written_lines(entries: Seq<(Seq<u8>, u32)>)
    ensures
        lines(written_vocabulary(entries)) == entries.map_values(
            |e: (Seq<u8>, u32)| written_line(e),
        ),
    decreases entries.len(),
{
    let want = entries.map_values(|e: (Seq<u8>, u32)| written_line(e));
    if entries.len() == 0 {
        assert(want =~= seq![]);
    } else {
        let line = written_line(entries[0]);
        let rest = written_vocabulary(entries.drop_first());
        let s = written_vocabulary(entries);
        lines_read_back(entries[0]);
        assert(s[line.len() as int] == '\n');
        assert forall|i: int| 0 <= i < line.len() implies s[i] != '\n' by {
            assert(s[i] == line[i]);
        }
        lemma_first_position(s, '\n');
        assert(first_position(s, '\n') == line.len()) by {
            assert(s.contains(s[line.len() as int]));
        }
        assert(s.take(line.len() as int) =~= line);
        assert(s.skip(line.len() as int + 1) =~= rest);
        assert(line.last() != '\r');
        lemma_written_lines(entries.drop_first());
        assert(seq![line] + lines(rest) =~= want);
    }
}

/// The entries of the lines of a written vocabulary.
proof fn lemma_written_entries(entries: Seq<(Seq<u8>, u32)>)
    ensures
        line_entries(entries.map_values(|e: (Seq<u8>, u32)| written_line(e))) == Ok::<
            _,
            VocabularyError,
        >(entries),
    decreases entries.len(),
{
    let all = entries.map_values(|e: (Seq<u8>, u32)| written_line(e));
    if entries.len() == 0 {
        assert(entries =~= seq![]);
    } else {
        lemma_written_entries(entries.drop_last());
        assert(all.drop_last() =~= entries.drop_last().map_values(
            |e: (Seq<u8>, u32)| written_line(e),
        ));
        lines_read_back(entries.last());
        assert(all.last() == written_line(entries.last()));
        assert(entries.drop_last().push(entries.last()) =~= entries);
    }
}

} // verus!
