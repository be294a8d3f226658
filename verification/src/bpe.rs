//! Byte-pair encoding of one piece of text.

use vstd::prelude::*;
use vstd::seq_lib::lemma_flatten_concat;

use crate::table::ByteTable;
use crate::text::slice_to_vec;

verus! {

/// Every byte of `text` as a token of its own.
pub open spec fn single_bytes(text: Seq<u8>) -> Seq<Seq<u8>> {
    Seq::new(text.len(), |i: int| seq![text[i]])
}

/// Token `i` and its right neighbour, as one token.
pub open spec fn joined(tokens: Seq<Seq<u8>>, i: int) -> Seq<u8> {
    tokens[i] + tokens[i + 1]
}

/// Whether token `i` and its right neighbour make a token of the vocabulary.
pub open spec fn mergeable(tokens: Seq<Seq<u8>>, ranks: Map<Seq<u8>, u32>, i: int) -> bool {
    &&& 0 <= i < tokens.len() - 1
    &&& ranks.contains_key(joined(tokens, i))
}

/// Whether the pair at `i` is the one to merge next: of the lowest rank, and the first of those.
pub open spec fn is_best_pair(tokens: Seq<Seq<u8>>, ranks: Map<Seq<u8>, u32>, i: int) -> bool {
    &&& mergeable(tokens, ranks, i)
    &&& forall|j: int| #[trigger]
        mergeable(tokens, ranks, j) ==> {
            ||| ranks[joined(tokens, i)] < ranks[joined(tokens, j)]
            ||| ranks[joined(tokens, i)] == ranks[joined(tokens, j)] && i <= j
        }
}

/// `tokens` with the pair at `i` merged.
pub open spec fn merge_at(tokens: Seq<Seq<u8>>, i: int) -> Seq<Seq<u8>> {
    tokens.take(i).push(joined(tokens, i)) + tokens.skip(i + 2)
}

/// `tokens` with best pairs merged until there is none.
pub open spec fn merged(tokens: Seq<Seq<u8>>, ranks: Map<Seq<u8>, u32>) -> Seq<Seq<u8>>
    decreases tokens.len(),
{
    if exists|i: int| is_best_pair(tokens, ranks, i) {
        merged(merge_at(tokens, choose|i: int| is_best_pair(tokens, ranks, i)), ranks)
    } else {
        tokens
    }
}

/// The ranks of those tokens that have one.
pub open spec fn ranks_of(tokens: Seq<Seq<u8>>, ranks: Map<Seq<u8>, u32>) -> Seq<u32>
    decreases tokens.len(),
{
    if tokens.len() == 0 {
        seq![]
    } else if ranks.contains_key(tokens.last()) {
        ranks_of(tokens.drop_last(), ranks).push(ranks[tokens.last()])
    } else {
        ranks_of(tokens.drop_last(), ranks)
    }
}

/// The byte-pair encoding of `text`.
pub open spec fn bpe(text: Seq<u8>, ranks: Map<Seq<u8>, u32>) -> Seq<u32> {
    ranks_of(merged(single_bytes(text), ranks), ranks)
}

/// Where any pair can be merged, there is a best one.
pub proof fn best_pair_exists(tokens: Seq<Seq<u8>>, ranks: Map<Seq<u8>, u32>, i: int)
    requires
        mergeable(tokens, ranks, i),
    ensures
        exists|b: int| is_best_pair(tokens, ranks, b),
    decreases ranks[joined(tokens, i)], i,
{
    if !is_best_pair(tokens, ranks, i) {
        let j = choose|j: int| #[trigger]
            mergeable(tokens, ranks, j) && !(ranks[joined(tokens, i)] < ranks[joined(tokens, j)]
                || ranks[joined(tokens, i)] == ranks[joined(tokens, j)] && i <= j);
        best_pair_exists(tokens, ranks, j);
    }
}

/// Merging leaves the text as it is, and ends when no pair is left that could be merged.
pub proof fn merging_keeps_the_text(tokens: Seq<Seq<u8>>, ranks: Map<Seq<u8>, u32>)
    ensures
        merged(tokens, ranks).flatten() == tokens.flatten(),
        forall|i: int| !mergeable(merged(tokens, ranks), ranks, i),
    decreases tokens.len(),
{
    if exists|i: int| is_best_pair(tokens, ranks, i) {
        let i = choose|i: int| is_best_pair(tokens, ranks, i);
        let next = merge_at(tokens, i);
        merging_keeps_the_text(next, ranks);
        let left = tokens.take(i);
        let right = tokens.skip(i + 2);
        lemma_flatten_concat(left.push(joined(tokens, i)), right);
        left.lemma_flatten_push(joined(tokens, i));
        left.lemma_flatten_push(tokens[i]);
        left.push(tokens[i]).lemma_flatten_push(tokens[i + 1]);
        lemma_flatten_concat(left.push(tokens[i]).push(tokens[i + 1]), right);
        assert(left.push(tokens[i]).push(tokens[i + 1]) + right =~= tokens);
        assert(next.flatten() =~= tokens.flatten());
    } else {
        assert forall|i: int| !mergeable(tokens, ranks, i) by {
            if mergeable(tokens, ranks, i) {
                best_pair_exists(tokens, ranks, i);
            }
        }
    }
}

/// Where every token has a rank, every token still has one after merging.
pub proof fn merging_keeps_the_ranks(tokens: Seq<Seq<u8>>, ranks: Map<Seq<u8>, u32>)
    requires
        forall|i: int| 0 <= i < tokens.len() ==> ranks.contains_key(#[trigger] tokens[i]),
    ensures
        forall|i: int|
            0 <= i < merged(tokens, ranks).len() ==> ranks.contains_key(
                #[trigger] merged(tokens, ranks)[i],
            ),
    decreases tokens.len(),
{
    if exists|i: int| is_best_pair(tokens, ranks, i) {
        let i = choose|i: int| is_best_pair(tokens, ranks, i);
        let next = merge_at(tokens, i);
        assert forall|j: int| 0 <= j < next.len() implies ranks.contains_key(#[trigger] next[j]) by {
            if j < i {
                assert(next[j] == tokens[j]);
            } else if j > i {
                assert(next[j] == tokens[j + 1]);
            }
        }
        merging_keeps_the_ranks(next, ranks);
        assert(merged(tokens, ranks) == merged(next, ranks));
    } else {
        assert(merged(tokens, ranks) == tokens);
    }
}

/// The single bytes of a text, put together, are the text.
pub proof fn single_bytes_make_up_the_text(text: Seq<u8>)
    ensures
        single_bytes(text).flatten() == text,
    decreases text.len(),
{
    let tokens = single_bytes(text);
    if text.len() == 0 {
        assert(tokens.flatten() =~= text);
    } else {
        single_bytes_make_up_the_text(text.drop_last());
        let before = single_bytes(text.drop_last());
        before.lemma_flatten_push(seq![text.last()]);
        assert(before.push(seq![text.last()]) =~= tokens);
        assert(text.drop_last() + seq![text.last()] =~= text);
    }
}

/// The bytes of a list of tokens.
pub open spec fn token_bytes(tokens: Seq<Vec<u8>>) -> Seq<Seq<u8>> {
    tokens.map_values(|t: Vec<u8>| t@)
}

/// Two runs of bytes, one behind the other.
fn concatenated(a: &[u8], b: &[u8]) -> (r: Vec<u8>)
    ensures
        r@ == a@ + b@,
{
    let mut r = slice_to_vec(a);
    r.extend_from_slice(b);
    r
}

/// Finds the pair to merge next.
fn best_pair(tokens: &Vec<Vec<u8>>, encoder: &ByteTable) -> (r: Option<usize>)
    ensures
        match r {
            Some(i) => is_best_pair(token_bytes(tokens@), encoder@, i as int),
            None => forall|i: int| !mergeable(token_bytes(tokens@), encoder@, i),
        },
{
    let ghost bytes = token_bytes(tokens@);
    let ghost ranks = encoder@;
    let mut best: Option<(usize, u32)> = None;
    let mut i: usize = 0;
    while i < tokens.len() && i < tokens.len() - 1
        invariant
            bytes == token_bytes(tokens@),
            ranks == encoder@,
            i <= tokens@.len(),
            match best {
                Some((b, rank)) => {
                    &&& b < i
                    &&& mergeable(bytes, ranks, b as int)
                    &&& rank == ranks[joined(bytes, b as int)]
                    &&& forall|j: int| #[trigger]
                        mergeable(bytes, ranks, j) && j < i ==> {
                            ||| rank < ranks[joined(bytes, j)]
                            ||| rank == ranks[joined(bytes, j)] && b <= j
                        }
                },
                None => forall|j: int| j < i ==> !mergeable(bytes, ranks, j),
            },
        decreases tokens@.len() - i,
    {
        let pair = concatenated(&tokens[i], &tokens[i + 1]);
        assert(pair@ == joined(bytes, i as int));
        if let Some(rank) = encoder.get(&pair) {
            assert(mergeable(bytes, ranks, i as int));
            let better = match best {
                Some((_, lowest)) => rank < lowest,
                None => true,
            };
            if better {
                best = Some((i, rank));
            }
        }
        i += 1;
    }
    match best {
        Some((b, _)) => Some(b),
        None => None,
    }
}

/// Encodes a run of bytes: starting from single bytes, merges pairs by rank, and gives the ranks
/// of the tokens that remain.
pub fn bpe_encode(text: &[u8], encoder: &ByteTable) -> (r: Vec<u32>)
    ensures
        r@ == bpe(text@, encoder@),
{
    let ghost ranks = encoder@;
    let mut tokens: Vec<Vec<u8>> = Vec::new();
    let mut i: usize = 0;
    while i < text.len()
        invariant
            i <= text@.len(),
            token_bytes(tokens@) == single_bytes(text@.take(i as int)),
        decreases text@.len() - i,
    {
        let mut token: Vec<u8> = Vec::new();
        token.push(text[i]);
        assert(token@ =~= seq![text@[i as int]]);
        let ghost before = token_bytes(tokens@);
        tokens.push(token);
        i += 1;
        assert(token_bytes(tokens@) =~= before.push(token@));
        assert(single_bytes(text@.take(i as int)) =~~= single_bytes(text@.take(i - 1)).push(
            seq![text@[i - 1]],
        ));
    }
    assert(text@.take(i as int) =~= text@);
    let mut next = best_pair(&tokens, encoder);
    while next.is_some()
        invariant
            ranks == encoder@,
            merged(token_bytes(tokens@), ranks) == merged(single_bytes(text@), ranks),
            match next {
                Some(i) => is_best_pair(token_bytes(tokens@), ranks, i as int),
                None => forall|i: int| !mergeable(token_bytes(tokens@), ranks, i),
            },
        decreases tokens@.len(),
    {
        let ghost before = token_bytes(tokens@);
        if let Some(at) = next {
            assert(mergeable(before, ranks, at as int));
            assert(before.len() == tokens.len());
            let pair = concatenated(&tokens[at], &tokens[at + 1]);
            tokens.set(at, pair);
            tokens.remove(at + 1);
            assert(token_bytes(tokens@) =~= merge_at(before, at as int));
            assert(is_best_pair(before, ranks, at as int));
            let ghost b = choose|i: int| is_best_pair(before, ranks, i);
            assert(b == at) by {
                assert(mergeable(before, ranks, b));
                assert(mergeable(before, ranks, at as int));
            }
            next = best_pair(&tokens, encoder);
        }
    }
    assert(merged(token_bytes(tokens@), ranks) == token_bytes(tokens@)) by {
        assert forall|i: int| !is_best_pair(token_bytes(tokens@), ranks, i) by {
            assert(!mergeable(token_bytes(tokens@), ranks, i));
        }
    }
    let ghost bytes = token_bytes(tokens@);
    let mut out: Vec<u32> = Vec::new();
    let mut k: usize = 0;
    assert(ranks_of(bytes.take(0), ranks) =~= Seq::<u32>::empty());
    while k < tokens.len()
        invariant
            k <= tokens@.len(),
            ranks == encoder@,
            bytes == token_bytes(tokens@),
            out@ == ranks_of(bytes.take(k as int), ranks),
        decreases tokens@.len() - k,
    {
        assert(bytes.take(k + 1).drop_last() =~= bytes.take(k as int));
        assert(bytes.take(k + 1).last() == tokens@[k as int]@);
        if let Some(rank) = encoder.get(&tokens[k]) {
            out.push(rank);
        }
        k += 1;
    }
    assert(bytes.take(k as int) =~= bytes);
    out
}

} // verus!
