//! What encoding and decoding promise of each other.

use vstd::prelude::*;
use vstd::utf8::*;

use crate::bpe::{
    bpe, merged, merging_keeps_the_ranks, merging_keeps_the_text, ranks_of, single_bytes,
    single_bytes_make_up_the_text,
};
use crate::encoding::{
    bytes_of_ids, entry_ranks, entry_tokens, ids_of_pieces, ids_of_text, lemma_other_ranks,
    lemma_other_tokens, lemma_special_ranks, lemma_special_tokens, text_of_ids, with_special_ranks,
    with_special_tokens,
};
use crate::languages::LANGUAGE_COUNT;
use crate::pieces::{
    ascii_alphanumeric, mixes, pieces, pieces_do_not_mix, pieces_make_up_the_text,
};
use crate::special::{
    lemma_body_shape, special_body, special_bytes, special_count, special_name,
};
use crate::text::{ascii_byte_is_a_character, utf8_of_concatenation};

verus! {

/// Whether every single byte is a token.
pub open spec fn complete(ranks: Map<Seq<u8>, u32>) -> bool {
    forall|b: u8| ranks.contains_key(#[trigger] seq![b])
}

/// Whether the id of every token leads back to it.
pub open spec fn faithful(ranks: Map<Seq<u8>, u32>, tokens: Map<u32, Seq<u8>>) -> bool {
    forall|bytes: Seq<u8>| #[trigger]
        ranks.contains_key(bytes) ==> tokens.contains_key(ranks[bytes]) && tokens[ranks[bytes]]
            == bytes
}

/// The bytes of one list of ids behind another are their bytes one behind the other.
pub proof fn decoding_distributes(a: Seq<u32>, b: Seq<u32>, tokens: Map<u32, Seq<u8>>)
    ensures
        bytes_of_ids(a + b, tokens) == bytes_of_ids(a, tokens) + bytes_of_ids(b, tokens),
    decreases b.len(),
{
    if b.len() == 0 {
        assert(a + b =~= a);
        assert(bytes_of_ids(a, tokens) + bytes_of_ids(b, tokens) =~= bytes_of_ids(a, tokens));
    } else {
        assert((a + b).drop_last() =~= a + b.drop_last());
        decoding_distributes(a, b.drop_last(), tokens);
        assert(bytes_of_ids(a + b, tokens) =~= bytes_of_ids(a, tokens) + bytes_of_ids(b, tokens));
    }
}

/// The ids of tokens that all have one decode to those tokens.
proof fn lemma_ranks_decode(
    list: Seq<Seq<u8>>,
    ranks: Map<Seq<u8>, u32>,
    tokens: Map<u32, Seq<u8>>,
)
    requires
        faithful(ranks, tokens),
        forall|i: int| 0 <= i < list.len() ==> ranks.contains_key(#[trigger] list[i]),
    ensures
        bytes_of_ids(ranks_of(list, ranks), tokens) == list.flatten(),
    decreases list.len(),
{
    if list.len() == 0 {
        assert(bytes_of_ids(ranks_of(list, ranks), tokens) =~= list.flatten());
    } else {
        let before = list.drop_last();
        assert(ranks.contains_key(list[list.len() - 1]));
        lemma_ranks_decode(before, ranks, tokens);
        before.lemma_flatten_push(list.last());
        assert(before.push(list.last()) =~= list);
        let ids = ranks_of(list, ranks);
        assert(ids.drop_last() =~= ranks_of(before, ranks));
        assert(ids.last() == ranks[list.last()]);
    }
}

/// The byte-pair encoding of a run of bytes decodes to it.
pub proof fn decoding_undoes_byte_pairs(
    bytes: Seq<u8>,
    ranks: Map<Seq<u8>, u32>,
    tokens: Map<u32, Seq<u8>>,
)
    requires
        complete(ranks),
        faithful(ranks, tokens),
    ensures
        bytes_of_ids(bpe(bytes, ranks), tokens) == bytes,
{
    let start = single_bytes(bytes);
    assert forall|i: int| 0 <= i < start.len() implies ranks.contains_key(#[trigger] start[i]) by {
        assert(start[i] == seq![bytes[i]]);
    }
    merging_keeps_the_ranks(start, ranks);
    merging_keeps_the_text(start, ranks);
    single_bytes_make_up_the_text(bytes);
    lemma_ranks_decode(merged(start, ranks), ranks, tokens);
}

proof fn lemma_pieces_decode(
    list: Seq<Seq<char>>,
    ranks: Map<Seq<u8>, u32>,
    tokens: Map<u32, Seq<u8>>,
)
    requires
        complete(ranks),
        faithful(ranks, tokens),
    ensures
        bytes_of_ids(ids_of_pieces(list, ranks), tokens) == encode_utf8(list.flatten()),
    decreases list.len(),
{
    if list.len() == 0 {
        assert(list.flatten() =~= Seq::<char>::empty());
        assert(encode_utf8(list.flatten()) =~= Seq::<u8>::empty());
        assert(ids_of_pieces(list, ranks) =~= Seq::<u32>::empty());
    } else {
        let before = list.drop_last();
        lemma_pieces_decode(before, ranks, tokens);
        decoding_undoes_byte_pairs(encode_utf8(list.last()), ranks, tokens);
        decoding_distributes(
            ids_of_pieces(before, ranks),
            bpe(encode_utf8(list.last()), ranks),
            tokens,
        );
        before.lemma_flatten_push(list.last());
        assert(before.push(list.last()) =~= list);
        utf8_of_concatenation(before.flatten(), list.last());
    }
}

/// Decoding gives back the text that was encoded, for every text, with a vocabulary in which
/// every byte is a token and the id of every token leads back to it.
pub proof fn decoding_undoes_encoding(
    text: Seq<char>,
    ranks: Map<Seq<u8>, u32>,
    tokens: Map<u32, Seq<u8>>,
)
    requires
        complete(ranks),
        faithful(ranks, tokens),
    ensures
        bytes_of_ids(ids_of_text(text, ranks), tokens) == encode_utf8(text),
        text_of_ids(ids_of_text(text, ranks), tokens) == text,
{
    lemma_pieces_decode(pieces(text), ranks, tokens);
    pieces_make_up_the_text(text);
    encode_utf8_valid_utf8(text);
    encode_utf8_decode_utf8(text);
}

/// Whether a vocabulary holds the ranks from 0 to its length once each.
pub open spec fn regular(file: Seq<(Seq<u8>, u32)>, width: nat) -> bool {
    &&& width <= LANGUAGE_COUNT
    &&& file.len() + special_count(width) <= u32::MAX
    &&& forall|i: int| 0 <= i < file.len() ==> (#[trigger] file[i]).1 < file.len()
    &&& ranks_differ(file)
}

/// Whether no two pairs of a list have the same rank.
pub open spec fn ranks_differ(file: Seq<(Seq<u8>, u32)>) -> bool {
    forall|i: int, j: int|
        0 <= i < j < file.len() ==> (#[trigger] file[i]).1 != (#[trigger] file[j]).1
}

/// The tables of a list without a rank twice: as many ranks as pairs, each with its token, and no
/// other pair.
proof fn lemma_regular_tables(file: Seq<(Seq<u8>, u32)>)
    requires
        ranks_differ(file),
    ensures
        entry_tokens(file).len() == file.len(),
        entry_tokens(file).dom().finite(),
        forall|i: int|
            0 <= i < file.len() ==> entry_tokens(file).contains_pair(
                (#[trigger] file[i]).1,
                file[i].0,
            ),
        forall|id: u32| #[trigger]
            entry_tokens(file).contains_key(id) ==> exists|i: int|
                0 <= i < file.len() && (#[trigger] file[i]).1 == id,
        forall|b: Seq<u8>| #[trigger]
            entry_ranks(file).contains_key(b) ==> exists|i: int|
                0 <= i < file.len() && #[trigger] file[i] == (b, entry_ranks(file)[b]),
    decreases file.len(),
{
    if file.len() > 0 {
        let before = file.drop_last();
        let last = file.last();
        assert(forall|i: int| 0 <= i < before.len() ==> #[trigger] before[i] == file[i]);
        assert(last == file[file.len() - 1]);
        lemma_regular_tables(before);
        assert(!entry_tokens(before).contains_key(last.1)) by {
            if entry_tokens(before).contains_key(last.1) {
                let i = choose|i: int| 0 <= i < before.len() && (#[trigger] before[i]).1 == last.1;
                assert(file[i].1 != file[file.len() - 1].1);
            }
        }
        assert forall|i: int| 0 <= i < file.len() implies entry_tokens(file).contains_pair(
            (#[trigger] file[i]).1,
            file[i].0,
        ) by {
            if i < before.len() {
                assert(entry_tokens(before).contains_pair(before[i].1, before[i].0));
            }
        }
        assert forall|id: u32| #[trigger] entry_tokens(file).contains_key(id) implies exists|
            i: int,
        | 0 <= i < file.len() && (#[trigger] file[i]).1 == id by {
            if id == last.1 {
                assert(file[file.len() - 1].1 == id);
            } else {
                assert(entry_tokens(before).contains_key(id));
                let i = choose|i: int| 0 <= i < before.len() && (#[trigger] before[i]).1 == id;
                assert(file[i].1 == id);
            }
        }
        assert forall|b: Seq<u8>| #[trigger] entry_ranks(file).contains_key(b) implies exists|
            i: int,
        | 0 <= i < file.len() && #[trigger] file[i] == (b, entry_ranks(file)[b]) by {
            if b == last.0 {
                assert(file[file.len() - 1] == (b, entry_ranks(file)[b]));
            } else {
                assert(entry_ranks(before).contains_key(b));
                let i = choose|i: int|
                    0 <= i < before.len() && #[trigger] before[i] == (b, entry_ranks(before)[b]);
                assert(file[i] == (b, entry_ranks(file)[b]));
            }
        }
    }
}

/// A vocabulary that holds the ranks from 0 once each has special tokens that start right behind it,
/// and the id of every token leads back to it.
pub proof fn regular_vocabularies_are_faithful(file: Seq<(Seq<u8>, u32)>, width: nat)
    requires
        regular(file, width),
    ensures
        entry_tokens(file).len() == file.len(),
        faithful(
            with_special_ranks(entry_ranks(file), width, file.len(), special_count(width)),
            with_special_tokens(entry_tokens(file), width, file.len(), special_count(width)),
        ),
{
    let base = file.len();
    let count = special_count(width);
    let ranks = with_special_ranks(entry_ranks(file), width, base, count);
    let tokens = with_special_tokens(entry_tokens(file), width, base, count);
    lemma_regular_tables(file);
    assert forall|bytes: Seq<u8>| #[trigger] ranks.contains_key(bytes) implies tokens.contains_key(
        ranks[bytes],
    ) && tokens[ranks[bytes]] == bytes by {
        if exists|k: int| 0 <= k < count && #[trigger] special_bytes(width, k) == bytes {
            let k = choose|k: int| 0 <= k < count && #[trigger] special_bytes(width, k) == bytes;
            lemma_special_ranks(entry_ranks(file), width, base, count, k);
            lemma_special_tokens(entry_tokens(file), width, base, count, k);
        } else {
            lemma_other_ranks(entry_ranks(file), width, base, count, bytes);
            let i = choose|i: int|
                0 <= i < file.len() && #[trigger] file[i] == (bytes, entry_ranks(file)[bytes]);
            assert(entry_tokens(file).contains_pair(file[i].1, file[i].0));
            lemma_other_tokens(entry_tokens(file), width, base, count, ranks[bytes]);
        }
    }
}

/// Whether `bytes` are those of a special token.
pub open spec fn is_special(width: nat, bytes: Seq<u8>) -> bool {
    exists|k: int| 0 <= k < special_count(width) && #[trigger] special_bytes(width, k) == bytes
}

/// Whether all tokens but the special ones have ids below `base`.
pub open spec fn ranked_below(ranks: Map<Seq<u8>, u32>, width: nat, base: nat) -> bool {
    forall|bytes: Seq<u8>| #[trigger]
        ranks.contains_key(bytes) && !is_special(width, bytes) ==> ranks[bytes] < base
}

/// The UTF-8 form of a text that starts with an ASCII character starts with that byte.
proof fn lemma_ascii_head(s: Seq<char>)
    requires
        s.len() > 0,
        (s[0] as u32) < 0x80,
    ensures
        encode_utf8(s).len() == 1 + encode_utf8(s.drop_first()).len(),
        encode_utf8(s)[0] == s[0] as u32,
        forall|i: int|
            0 < i < encode_utf8(s).len() ==> #[trigger] encode_utf8(s)[i] == encode_utf8(
                s.drop_first(),
            )[i - 1],
{
    let c = s[0] as u32;
    assert(leading_byte_width_1(c) == c) by (bit_vector)
        requires
            has_width_1_encoding(c),
    ;
}

/// A character is told by its number.
proof fn lemma_same_character(a: char, b: char)
    requires
        a as u32 == b as u32,
    ensures
        a == b,
{
}

/// A special token's bytes hold a `<` and an ASCII letter or digit.
proof fn lemma_special_mixes(width: nat, k: int)
    requires
        width <= LANGUAGE_COUNT,
        0 <= k < special_count(width),
    ensures
        special_bytes(width, k).len() > 2,
        special_bytes(width, k)[0] == '<' as u32,
        special_bytes(width, k)[2] == special_body(width, k)[0] as u32,
        ascii_alphanumeric(special_body(width, k)[0]),
{
    let name = special_name(width, k);
    let body = special_body(width, k);
    lemma_body_shape(width, k);
    assert(name[0] == '<' && name[1] == '|' && name[2] == body[0]);
    let rest = name.drop_first();
    let tail = rest.drop_first();
    assert(rest[0] == '|' && tail[0] == body[0]);
    lemma_ascii_head(name);
    lemma_ascii_head(rest);
    lemma_ascii_head(tail);
}

/// A byte of a token is a byte of the text that the tokens make up.
proof fn lemma_byte_of_token(list: Seq<Seq<u8>>, i: int, j: int)
    requires
        0 <= i < list.len(),
        0 <= j < list[i].len(),
    ensures
        exists|m: int| 0 <= m < list.flatten().len() && #[trigger] list.flatten()[m] == list[i][j],
    decreases list.len(),
{
    let rest = list.drop_first();
    if i == 0 {
        assert(list.flatten()[j] == list[i][j]);
    } else {
        lemma_byte_of_token(rest, i - 1, j);
        let m = choose|m: int|
            0 <= m < rest.flatten().len() && #[trigger] rest.flatten()[m] == rest[i - 1][j];
        assert(list.flatten()[list[0].len() + m] == list[i][j]);
    }
}

/// The tokens that a piece is merged to are no special tokens.
proof fn lemma_piece_tokens_not_special(
    piece: Seq<char>,
    ranks: Map<Seq<u8>, u32>,
    width: nat,
    i: int,
)
    requires
        width <= LANGUAGE_COUNT,
        !mixes(piece),
        0 <= i < merged(single_bytes(encode_utf8(piece)), ranks).len(),
    ensures
        !is_special(width, merged(single_bytes(encode_utf8(piece)), ranks)[i]),
{
    let bytes = encode_utf8(piece);
    let list = merged(single_bytes(bytes), ranks);
    merging_keeps_the_text(single_bytes(bytes), ranks);
    single_bytes_make_up_the_text(bytes);
    if is_special(width, list[i]) {
        let k = choose|k: int|
            0 <= k < special_count(width) && #[trigger] special_bytes(width, k) == list[i];
        lemma_special_mixes(width, k);
        lemma_byte_of_token(list, i, 0);
        lemma_byte_of_token(list, i, 2);
        let m = choose|m: int| 0 <= m < bytes.len() && #[trigger] bytes[m] == list[i][0];
        let n = choose|n: int| 0 <= n < bytes.len() && #[trigger] bytes[n] == list[i][2];
        ascii_byte_is_a_character(piece, m);
        ascii_byte_is_a_character(piece, n);
        let p = choose|p: int| 0 <= p < piece.len() && #[trigger] piece[p] as u32 == bytes[m];
        let q = choose|q: int| 0 <= q < piece.len() && #[trigger] piece[q] as u32 == bytes[n];
        lemma_same_character(piece[p], '<');
        lemma_same_character(piece[q], special_body(width, k)[0]);
        assert(ascii_alphanumeric(piece[q]));
    }
}

/// Where every token that has a rank has one below `base`, so have all ids.
proof fn lemma_ranks_below(list: Seq<Seq<u8>>, ranks: Map<Seq<u8>, u32>, base: nat)
    requires
        forall|i: int|
            0 <= i < list.len() && ranks.contains_key(#[trigger] list[i]) ==> ranks[list[i]] < base,
    ensures
        forall|i: int|
            0 <= i < ranks_of(list, ranks).len() ==> #[trigger] ranks_of(list, ranks)[i] < base,
    decreases list.len(),
{
    if list.len() > 0 {
        let before = list.drop_last();
        assert forall|i: int| 0 <= i < before.len() && ranks.contains_key(#[trigger] before[i])
            implies ranks[before[i]] < base by {
            assert(before[i] == list[i]);
        }
        lemma_ranks_below(before, ranks, base);
        if ranks.contains_key(list.last()) {
            assert(ranks[list[list.len() - 1]] < base);
        }
        let ids = ranks_of(list, ranks);
        assert forall|i: int| 0 <= i < ids.len() implies #[trigger] ids[i] < base by {
            if i < ranks_of(before, ranks).len() {
                assert(ids[i] == ranks_of(before, ranks)[i]);
            }
        }
    }
}

proof fn lemma_pieces_below(
    list: Seq<Seq<char>>,
    ranks: Map<Seq<u8>, u32>,
    width: nat,
    base: nat,
)
    requires
        width <= LANGUAGE_COUNT,
        ranked_below(ranks, width, base),
        forall|i: int| 0 <= i < list.len() ==> !mixes(#[trigger] list[i]),
    ensures
        forall|i: int|
            0 <= i < ids_of_pieces(list, ranks).len() ==> #[trigger] ids_of_pieces(list, ranks)[i]
                < base,
    decreases list.len(),
{
    if list.len() > 0 {
        let before = list.drop_last();
        let piece = list.last();
        assert forall|i: int| 0 <= i < before.len() implies !mixes(#[trigger] before[i]) by {
            assert(before[i] == list[i]);
        }
        lemma_pieces_below(before, ranks, width, base);
        assert(!mixes(list[list.len() - 1]));
        let tokens = merged(single_bytes(encode_utf8(piece)), ranks);
        assert forall|i: int| 0 <= i < tokens.len() && ranks.contains_key(#[trigger] tokens[i])
            implies ranks[tokens[i]] < base by {
            lemma_piece_tokens_not_special(piece, ranks, width, i);
        }
        lemma_ranks_below(tokens, ranks, base);
        let ids = ids_of_pieces(list, ranks);
        let n = ids_of_pieces(before, ranks).len();
        assert forall|i: int| 0 <= i < ids.len() implies #[trigger] ids[i] < base by {
            if i < n {
                assert(ids[i] == ids_of_pieces(before, ranks)[i]);
            } else {
                assert(ids[i] == bpe(encode_utf8(piece), ranks)[i - n]);
            }
        }
    }
}

/// Encoding a text gives no special token, even where the text spells one out.
pub proof fn encoding_gives_no_special_token(
    text: Seq<char>,
    ranks: Map<Seq<u8>, u32>,
    width: nat,
    base: nat,
)
    requires
        width <= LANGUAGE_COUNT,
        ranked_below(ranks, width, base),
    ensures
        forall|i: int|
            0 <= i < ids_of_text(text, ranks).len() ==> #[trigger] ids_of_text(text, ranks)[i]
                < base,
{
    assert forall|i: int| 0 <= i < pieces(text).len() implies !mixes(#[trigger] pieces(text)[i]) by {
        pieces_do_not_mix(text, i);
    }
    lemma_pieces_below(pieces(text), ranks, width, base);
}

/// In a vocabulary that holds the ranks from 0 once each, all ids below the special tokens are its
/// own.
pub proof fn regular_vocabularies_rank_below(file: Seq<(Seq<u8>, u32)>, width: nat)
    requires
        regular(file, width),
    ensures
        ranked_below(
            with_special_ranks(entry_ranks(file), width, file.len(), special_count(width)),
            width,
            file.len(),
        ),
{
    let base = file.len();
    let count = special_count(width);
    let ranks = with_special_ranks(entry_ranks(file), width, base, count);
    lemma_regular_tables(file);
    assert forall|bytes: Seq<u8>| #[trigger] ranks.contains_key(bytes) && !is_special(width, bytes)
        implies ranks[bytes] < base by {
        lemma_other_ranks(entry_ranks(file), width, base, count, bytes);
        let i = choose|i: int|
            0 <= i < file.len() && #[trigger] file[i] == (bytes, entry_ranks(file)[bytes]);
        assert(file[i].1 < base);
    }
}

} // verus!
