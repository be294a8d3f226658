//! From text to token ids and back.

use vstd::prelude::*;
use vstd::utf8::*;

use crate::bpe::{bpe, is_best_pair, merge_at, mergeable, merged, ranks_of, single_bytes};
use crate::decoding::plain_text;
use crate::encoding::{
    bytes_of_ids, entry_ranks, entry_tokens, ids_of_pieces, ids_of_text, text_of_ids,
};
use crate::languages::code_at;
use crate::laws::pieces::{
    contractions_are_pieces, is_contraction, only_white, runs_are_whole_pieces, starts_with,
    white_space_goes_with_what_follows,
};
use crate::pieces::{pieces, CharClass};
use crate::roundtrip::{
    complete, decoding_distributes, decoding_undoes_encoding, encoding_gives_no_special_token,
    regular, regular_vocabularies_are_faithful, regular_vocabularies_rank_below,
};
use crate::special::{
    language_place, language_width, no_speech_place, no_timestamps_place, special_body,
    special_count, start_of_lm_place, start_of_prev_place, timestamp_place, transcribe_place,
    translate_place,
};
use crate::text::{trimmed, utf8_behind_utf8, white_space, TrimSet};
use crate::tokenizer::{ids_below, Tokenizer};
use crate::unicode::utf8_with_replacements;

verus! {

// Byte pairs.

/// Whether the tokens at `i` and behind it make a token of the vocabulary.
pub open spec fn joins(tokens: Seq<Seq<u8>>, ranks: Map<Seq<u8>, u32>, i: int) -> bool {
    0 <= i && i + 1 < tokens.len() && ranks.contains_key(tokens[i] + tokens[i + 1])
}

/// Pairs are merged by rank: where the pair at `i` has the lowest rank of all pairs that make a
/// token, and is the first of that rank, merging goes on from the tokens with that pair as one.
pub proof fn the_pair_of_lowest_rank_is_merged_first(
    tokens: Seq<Seq<u8>>,
    ranks: Map<Seq<u8>, u32>,
    i: int,
)
    requires
        joins(tokens, ranks, i),
        forall|j: int| #[trigger]
            joins(tokens, ranks, j) ==> {
                let (a, b) = (ranks[tokens[i] + tokens[i + 1]], ranks[tokens[j] + tokens[j + 1]]);
                a < b || a == b && i <= j
            },
    ensures
        merged(tokens, ranks) == merged(
            tokens.take(i) + seq![tokens[i] + tokens[i + 1]] + tokens.skip(i + 2),
            ranks,
        ),
{
    assert forall|j: int| #[trigger] mergeable(tokens, ranks, j) implies joins(tokens, ranks, j) by {
    }
    assert(mergeable(tokens, ranks, i));
    assert(is_best_pair(tokens, ranks, i));
    let b = choose|b: int| is_best_pair(tokens, ranks, b);
    assert(joins(tokens, ranks, b));
    assert(b == i);
    assert(merge_at(tokens, i) =~= tokens.take(i) + seq![tokens[i] + tokens[i + 1]] + tokens.skip(
        i + 2,
    ));
}

/// Merging ends only where no pair makes a token.
pub proof fn tokens_without_a_pair_are_left_alone(
    tokens: Seq<Seq<u8>>,
    ranks: Map<Seq<u8>, u32>,
    i: int,
)
    ensures
        !joins(merged(tokens, ranks), ranks, i),
        (forall|j: int| !(#[trigger] joins(tokens, ranks, j))) ==> merged(tokens, ranks) == tokens,
{
    crate::bpe::merging_keeps_the_text(tokens, ranks);
    assert(!mergeable(merged(tokens, ranks), ranks, i));
    if forall|j: int| !(#[trigger] joins(tokens, ranks, j)) {
        assert forall|j: int| !is_best_pair(tokens, ranks, j) by {
            if is_best_pair(tokens, ranks, j) {
                assert(joins(tokens, ranks, j));
            }
        }
    }
}

/// The ranks of tokens are theirs one after the other; a token without a rank is left out.
pub proof fn ranks_come_in_order(a: Seq<Seq<u8>>, token: Seq<u8>, ranks: Map<Seq<u8>, u32>)
    ensures
        ranks_of(Seq::<Seq<u8>>::empty(), ranks) == Seq::<u32>::empty(),
        ranks.contains_key(token) ==> ranks_of(a.push(token), ranks) == ranks_of(a, ranks).push(
            ranks[token],
        ),
        !ranks.contains_key(token) ==> ranks_of(a.push(token), ranks) == ranks_of(a, ranks),
{
    assert(a.push(token).drop_last() =~= a);
}

/// The encoding of a run of bytes is that of its single bytes, merged.
pub proof fn byte_pairs_start_from_single_bytes(
    text: Seq<u8>,
    tokens: Seq<Seq<u8>>,
    ranks: Map<Seq<u8>, u32>,
)
    requires
        tokens.len() == text.len(),
        forall|i: int| 0 <= i < text.len() ==> #[trigger] tokens[i] == seq![text[i]],
    ensures
        bpe(text, ranks) == ranks_of(merged(tokens, ranks), ranks),
{
    assert(single_bytes(text) =~= tokens);
}

/// A byte alone is its own token, where it is one.
pub proof fn a_byte_alone_is_its_token(b: u8, ranks: Map<Seq<u8>, u32>)
    requires
        ranks.contains_key(seq![b]),
    ensures
        bpe(seq![b], ranks) == seq![ranks[seq![b]]],
{
    let tokens = seq![seq![b]];
    byte_pairs_start_from_single_bytes(seq![b], tokens, ranks);
    assert forall|j: int| !(#[trigger] joins(tokens, ranks, j)) by {}
    tokens_without_a_pair_are_left_alone(tokens, ranks, 0);
    ranks_come_in_order(Seq::empty(), seq![b], ranks);
    assert(Seq::<Seq<u8>>::empty().push(seq![b]) =~= tokens);
    assert(Seq::<u32>::empty().push(ranks[seq![b]]) =~= seq![ranks[seq![b]]]);
}

/// Two bytes that make a token are that token.
pub proof fn two_bytes_that_make_a_token_are_merged(a: u8, b: u8, ranks: Map<Seq<u8>, u32>)
    requires
        ranks.contains_key(seq![a, b]),
    ensures
        bpe(seq![a, b], ranks) == seq![ranks[seq![a, b]]],
{
    let tokens = seq![seq![a], seq![b]];
    byte_pairs_start_from_single_bytes(seq![a, b], tokens, ranks);
    assert(tokens[0] + tokens[1] =~= seq![a, b]);
    assert forall|j: int| #[trigger] joins(tokens, ranks, j) implies j == 0 by {}
    the_pair_of_lowest_rank_is_merged_first(tokens, ranks, 0);
    let one = seq![seq![a, b]];
    assert(tokens.take(0) + seq![tokens[0] + tokens[1]] + tokens.skip(2) =~= one);
    assert forall|j: int| !(#[trigger] joins(one, ranks, j)) by {}
    tokens_without_a_pair_are_left_alone(one, ranks, 0);
    ranks_come_in_order(Seq::empty(), seq![a, b], ranks);
    assert(Seq::<Seq<u8>>::empty().push(seq![a, b]) =~= one);
    assert(Seq::<u32>::empty().push(ranks[seq![a, b]]) =~= seq![ranks[seq![a, b]]]);
}

// Text to ids.

/// The ids of pieces are those of each, one after the other.
proof fn lemma_ids_of_more_pieces(
    head: Seq<char>,
    rest: Seq<Seq<char>>,
    ranks: Map<Seq<u8>, u32>,
)
    ensures
        ids_of_pieces(seq![head] + rest, ranks) == bpe(encode_utf8(head), ranks) + ids_of_pieces(
            rest,
            ranks,
        ),
    decreases rest.len(),
{
    let all = seq![head] + rest;
    if rest.len() == 0 {
        assert(all.drop_last() =~= Seq::<Seq<char>>::empty());
        assert(ids_of_pieces(all.drop_last(), ranks) =~= Seq::<u32>::empty());
        assert(ids_of_pieces(all, ranks) =~= bpe(encode_utf8(head), ranks) + ids_of_pieces(
            rest,
            ranks,
        ));
    } else {
        lemma_ids_of_more_pieces(head, rest.drop_last(), ranks);
        assert(all.drop_last() =~= seq![head] + rest.drop_last());
        assert(ids_of_pieces(all, ranks) =~= bpe(encode_utf8(head), ranks) + ids_of_pieces(
            rest,
            ranks,
        ));
    }
}

/// A word, a number or a run of symbols, with one space before it where there is one, is encoded as
/// a whole; and what follows is encoded as if it stood alone.
pub proof fn runs_are_encoded_as_a_whole(
    lead: Seq<char>,
    run: Seq<char>,
    tail: Seq<char>,
    class: CharClass,
    ranks: Map<Seq<u8>, u32>,
)
    requires
        lead.len() == 0 || lead == seq![' '],
        run.len() > 0,
        forall|i: int| 0 <= i < run.len() ==> class.holds(#[trigger] run[i]),
        tail.len() > 0 ==> !class.holds(tail[0]),
        class != CharClass::Letter ==> !CharClass::Letter.holds(run[0]),
        forall|c: Seq<char>| #[trigger] is_contraction(c) ==> !starts_with(lead + run + tail, c),
    ensures
        ids_of_text(lead + run + tail, ranks) == bpe(encode_utf8(lead + run), ranks) + ids_of_text(
            tail,
            ranks,
        ),
{
    runs_are_whole_pieces(lead, run, tail, class);
    lemma_ids_of_more_pieces(lead + run, pieces(tail), ranks);
}

/// A contraction is encoded by itself.
pub proof fn contractions_are_encoded_alone(
    c: Seq<char>,
    tail: Seq<char>,
    ranks: Map<Seq<u8>, u32>,
)
    requires
        is_contraction(c),
    ensures
        ids_of_text(c + tail, ranks) == bpe(encode_utf8(c), ranks) + ids_of_text(tail, ranks),
{
    contractions_are_pieces(c, tail);
    lemma_ids_of_more_pieces(c, pieces(tail), ranks);
}

/// White space is encoded as a whole at the end of a text, and else without its last character,
/// which goes with what follows.
pub proof fn white_space_is_encoded_with_what_follows(
    white: Seq<char>,
    tail: Seq<char>,
    ranks: Map<Seq<u8>, u32>,
)
    requires
        white.len() > 0,
        forall|i: int| 0 <= i < white.len() ==> only_white(#[trigger] white[i]),
        tail.len() > 0 ==> !white_space(tail[0]),
    ensures
        tail.len() == 0 ==> ids_of_text(white, ranks) == bpe(encode_utf8(white), ranks),
        tail.len() > 0 && white.len() > 1 ==> ids_of_text(white + tail, ranks) == bpe(
            encode_utf8(white.drop_last()),
            ranks,
        ) + ids_of_text(seq![white.last()] + tail, ranks),
        ids_of_text(Seq::<char>::empty(), ranks) == Seq::<u32>::empty(),
{
    white_space_goes_with_what_follows(white, tail);
    if tail.len() == 0 {
        assert(white + tail =~= white);
        lemma_ids_of_more_pieces(white, Seq::empty(), ranks);
        assert(seq![white] + Seq::<Seq<char>>::empty() =~= seq![white]);
        assert(bpe(encode_utf8(white), ranks) + Seq::<u32>::empty() =~= bpe(
            encode_utf8(white),
            ranks,
        ));
        assert(ids_of_pieces(Seq::<Seq<char>>::empty(), ranks) =~= Seq::<u32>::empty());
    } else if white.len() > 1 {
        lemma_ids_of_more_pieces(
            white.drop_last(),
            pieces(seq![white.last()] + tail),
            ranks,
        );
    }
    assert(ids_of_text(Seq::<char>::empty(), ranks) =~= Seq::<u32>::empty());
}

// Ids to text.

/// An id stands for the bytes of its token, and one without a token for none.
pub proof fn an_id_stands_for_its_token(id: u32, tokens: Map<u32, Seq<u8>>)
    ensures
        bytes_of_ids(Seq::<u32>::empty(), tokens) == Seq::<u8>::empty(),
        tokens.contains_key(id) ==> bytes_of_ids(seq![id], tokens) == tokens[id],
        !tokens.contains_key(id) ==> bytes_of_ids(seq![id], tokens) == Seq::<u8>::empty(),
{
    let one = seq![id];
    assert(one.drop_last() =~= Seq::<u32>::empty());
    assert(bytes_of_ids(one.drop_last(), tokens) =~= Seq::<u8>::empty());
    assert(Seq::<u8>::empty() + tokens[id] =~= tokens[id]);
}

/// Bytes that are the UTF-8 form of a text are that text.
pub proof fn utf8_is_read_as_text(ids: Seq<u32>, tokens: Map<u32, Seq<u8>>, text: Seq<char>)
    requires
        bytes_of_ids(ids, tokens) == encode_utf8(text),
    ensures
        text_of_ids(ids, tokens) == text,
{
    encode_utf8_valid_utf8(text);
    encode_utf8_decode_utf8(text);
}

/// The text of two lists of ids, one behind the other, is their texts one behind the other, where
/// each has the bytes of whole characters.
pub proof fn texts_follow_one_another(a: Seq<u32>, b: Seq<u32>, tokens: Map<u32, Seq<u8>>)
    requires
        valid_utf8(bytes_of_ids(a, tokens)),
        valid_utf8(bytes_of_ids(b, tokens)),
    ensures
        valid_utf8(bytes_of_ids(a + b, tokens)),
        text_of_ids(a + b, tokens) == text_of_ids(a, tokens) + text_of_ids(b, tokens),
{
    decoding_distributes(a, b, tokens);
    let (p, q) = (bytes_of_ids(a, tokens), bytes_of_ids(b, tokens));
    valid_utf8_concat(p, q);
    utf8_behind_utf8(p, q);
}

/// The ids that are kept of two lists, one behind the other, are those kept of each; and an id is
/// kept if and only if it is below the limit.
pub proof fn ids_are_kept_one_by_one(a: Seq<u32>, b: Seq<u32>, id: u32, limit: u32)
    ensures
        ids_below(a + b, limit) == ids_below(a, limit) + ids_below(b, limit),
        ids_below(seq![id], limit) == (if id < limit {
            seq![id]
        } else {
            Seq::<u32>::empty()
        }),
    decreases b.len(),
{
    if b.len() == 0 {
        assert(a + b =~= a);
        assert(ids_below(a, limit) + ids_below(b, limit) =~= ids_below(a, limit));
    } else {
        ids_are_kept_one_by_one(a, b.drop_last(), id, limit);
        assert((a + b).drop_last() =~= a + b.drop_last());
        assert(ids_below(a + b, limit) =~= ids_below(a, limit) + ids_below(b, limit));
    }
    let one = seq![id];
    assert(one.drop_last() =~= Seq::<u32>::empty());
    assert(ids_below(one.drop_last(), limit) =~= Seq::<u32>::empty());
    assert(ids_below(one, limit) =~= (if id < limit {
        seq![id]
    } else {
        Seq::<u32>::empty()
    }));
}

/// The text that ids stand for, special tokens left out and white space kept.
pub open spec fn spoken(t: Tokenizer, ids: Seq<u32>) -> Seq<char> {
    text_of_ids(ids_below(ids, t.encoding.eot_token), t.encoding.vocab@)
}

/// Whether the bytes of the ids, special tokens left out, are those of whole characters.
pub open spec fn speaks_whole_characters(t: Tokenizer, ids: Seq<u32>) -> bool {
    valid_utf8(bytes_of_ids(ids_below(ids, t.encoding.eot_token), t.encoding.vocab@))
}

/// The text of a list of ids of any length loses nothing: where its ids, special tokens left out,
/// are those that a text is encoded to, it is that text without the white space at its ends.
pub proof fn the_text_of_ids_loses_nothing(
    t: Tokenizer,
    file: Seq<(Seq<u8>, u32)>,
    name: Seq<char>,
    num_languages: nat,
    ids: Seq<u32>,
    text: Seq<char>,
)
    requires
        t.encoding.built_from(file, name, num_languages),
        regular(file, language_width(num_languages)),
        complete(t.encoding.encoder@),
        ids_below(ids, t.encoding.eot_token) == ids_of_text(text, t.encoding.encoder@),
    ensures
        spoken(t, ids) == text,
        plain_text(t, ids) == trimmed(text, TrimSet::White),
{
    let width = language_width(num_languages);
    regular_vocabularies_are_faithful(file, width);
    decoding_undoes_encoding(text, t.encoding.encoder@, t.encoding.vocab@);
}

/// The text of two lists of ids, one behind the other, holds the text of both, in order: nothing is
/// lost of either, but white space at the ends.
pub proof fn the_text_of_more_ids_goes_on(t: Tokenizer, a: Seq<u32>, b: Seq<u32>)
    requires
        speaks_whole_characters(t, a),
        speaks_whole_characters(t, b),
    ensures
        speaks_whole_characters(t, a + b),
        spoken(t, a + b) == spoken(t, a) + spoken(t, b),
        plain_text(t, a + b) == trimmed(spoken(t, a) + spoken(t, b), TrimSet::White),
        plain_text(t, a) == trimmed(spoken(t, a), TrimSet::White),
{
    ids_are_kept_one_by_one(a, b, 0, t.encoding.eot_token);
    texts_follow_one_another(
        ids_below(a, t.encoding.eot_token),
        ids_below(b, t.encoding.eot_token),
        t.encoding.vocab@,
    );
}

/// A special token changes nothing of the text, wherever it stands.
pub proof fn special_tokens_are_not_spoken(t: Tokenizer, a: Seq<u32>, id: u32, b: Seq<u32>)
    requires
        t.encoding.eot_token <= id,
    ensures
        spoken(t, a + seq![id] + b) == spoken(t, a + b),
        plain_text(t, a + seq![id] + b) == plain_text(t, a + b),
{
    let eot = t.encoding.eot_token;
    ids_are_kept_one_by_one(a + seq![id], b, id, eot);
    ids_are_kept_one_by_one(a, seq![id], id, eot);
    ids_are_kept_one_by_one(a, b, id, eot);
    assert(ids_below(a, eot) + ids_below(seq![id], eot) =~= ids_below(a, eot));
}

/// Where the bytes of the ids are no text, all of them are still read, with replacement characters
/// for what is malformed.
pub proof fn malformed_bytes_are_replaced(t: Tokenizer, ids: Seq<u32>)
    requires
        !speaks_whole_characters(t, ids),
    ensures
        plain_text(t, ids) == trimmed(
            utf8_with_replacements(
                bytes_of_ids(ids_below(ids, t.encoding.eot_token), t.encoding.vocab@),
            ),
            TrimSet::White,
        ),
{
}

/// A text that is encoded to any number of ids is decoded whole by a tokenizer, and no id of it is
/// taken for a special token.
pub proof fn every_id_of_a_text_is_spoken(
    t: Tokenizer,
    file: Seq<(Seq<u8>, u32)>,
    name: Seq<char>,
    num_languages: nat,
    text: Seq<char>,
)
    requires
        t.encoding.built_from(file, name, num_languages),
        regular(file, language_width(num_languages)),
        complete(t.encoding.encoder@),
    ensures
        ({
            let ids = ids_of_text(text, t.encoding.encoder@);
            &&& ids_below(ids, t.encoding.eot_token) == ids
            &&& spoken(t, ids) == text
            &&& plain_text(t, ids) == trimmed(text, TrimSet::White)
        }),
{
    let ids = ids_of_text(text, t.encoding.encoder@);
    let width = language_width(num_languages);
    regular_vocabularies_are_faithful(file, width);
    regular_vocabularies_rank_below(file, width);
    encoding_gives_no_special_token(text, t.encoding.encoder@, width, file.len());
    crate::tokenizer::ids_below_keeps(ids, t.encoding.eot_token);
    the_text_of_ids_loses_nothing(t, file, name, num_languages, ids, text);
}

// The tables of a vocabulary.

/// A token of a vocabulary has the rank of its last line, and a rank the token of its last line; what
/// stands on no line is in neither table.
pub proof fn the_last_line_counts(file: Seq<(Seq<u8>, u32)>, i: int)
    requires
        0 <= i < file.len(),
    ensures
        (forall|j: int| i < j < file.len() ==> (#[trigger] file[j]).0 != file[i].0) ==> entry_ranks(
            file,
        ).contains_pair(file[i].0, file[i].1),
        (forall|j: int| i < j < file.len() ==> (#[trigger] file[j]).1 != file[i].1)
            ==> entry_tokens(file).contains_pair(file[i].1, file[i].0),
    decreases file.len(),
{
    if i < file.len() - 1 {
        let before = file.drop_last();
        the_last_line_counts(before, i);
        assert(before[i] == file[i]);
        assert(file.last() == file[file.len() - 1]);
        if forall|j: int| i < j < file.len() ==> (#[trigger] file[j]).0 != file[i].0 {
            assert forall|j: int| i < j < before.len() implies (#[trigger] before[j]).0
                != before[i].0 by {
                assert(before[j] == file[j]);
            }
        }
        if forall|j: int| i < j < file.len() ==> (#[trigger] file[j]).1 != file[i].1 {
            assert forall|j: int| i < j < before.len() implies (#[trigger] before[j]).1
                != before[i].1 by {
                assert(before[j] == file[j]);
            }
        }
    }
}

/// What stands on no line of a vocabulary is in neither table.
pub proof fn only_lines_count(file: Seq<(Seq<u8>, u32)>, token: Seq<u8>, rank: u32)
    ensures
        (forall|j: int| 0 <= j < file.len() ==> (#[trigger] file[j]).0 != token) ==> !entry_ranks(
            file,
        ).contains_key(token),
        (forall|j: int| 0 <= j < file.len() ==> (#[trigger] file[j]).1 != rank) ==> !entry_tokens(
            file,
        ).contains_key(rank),
    decreases file.len(),
{
    if file.len() > 0 {
        let before = file.drop_last();
        only_lines_count(before, token, rank);
        assert(file.last() == file[file.len() - 1]);
        if forall|j: int| 0 <= j < file.len() ==> (#[trigger] file[j]).0 != token {
            assert forall|j: int| 0 <= j < before.len() implies (#[trigger] before[j]).0
                != token by {
                assert(before[j] == file[j]);
            }
        }
        if forall|j: int| 0 <= j < file.len() ==> (#[trigger] file[j]).1 != rank {
            assert forall|j: int| 0 <= j < before.len() implies (#[trigger] before[j]).1
                != rank by {
                assert(before[j] == file[j]);
            }
        }
    }
}

/// The special tokens stand in one order behind the vocabulary: the end of a text, the start of a
/// transcript, the languages in the order of their table, the two tasks, the starts of a language
/// model's text and of the text before, silence, the token that turns timestamps off, and the
/// timestamps from 0 s on.
pub proof fn special_tokens_stand_in_order(width: nat, i: int)
    requires
        0 <= i < width,
    ensures
        special_body(width, 0) == "endoftext"@,
        special_body(width, 1) == "startoftranscript"@,
        special_body(width, 2 + i) == code_at(i),
        special_body(width, width as int + 2) == "translate"@,
        special_body(width, width as int + 3) == "transcribe"@,
        special_body(width, width as int + 4) == "startoflm"@,
        special_body(width, width as int + 5) == "startofprev"@,
        special_body(width, width as int + 6) == "nospeech"@,
        special_body(width, width as int + 7) == "notimestamps"@,
        special_count(width) == width + 8 + 1501,
        language_place(i) == 2 + i,
        translate_place(width) == width + 2,
        transcribe_place(width) == width + 3,
        start_of_lm_place(width) == width + 4,
        start_of_prev_place(width) == width + 5,
        no_speech_place(width) == width + 6,
        no_timestamps_place(width) == width + 7,
        timestamp_place(width, i) == width + 8 + i,
{
}

/// Timestamp `50 * s + k` is named by the time `s` seconds and `2 * k` hundredths.
pub proof fn timestamps_are_named_by_their_times(width: nat, s: nat, k: nat)
    requires
        k < 50,
    ensures
        special_body(width, 8 + width as int + 50 * s + k) == crate::numbers::decimal(s) + seq!['.']
            + crate::numbers::padded_decimal(2 * k, 2),
{
    let i = 50 * s + k;
    assert(i / 50 == s && i % 50 == k);
    assert(crate::numbers::decimal(s).push('.') =~= crate::numbers::decimal(s) + seq!['.']);
}

} // verus!
