//! Grouping tokens into words.

use vstd::prelude::*;
use vstd::utf8::*;

use crate::encoding::{bytes_of_ids, text_of_ids, Encoding};
use crate::roundtrip::decoding_distributes;
use crate::text::{
    chars_of, find_char, first_position, lemma_first_position, slice_to_vec, string_of, trim,
    trimmed, utf8_behind_utf8, TrimSet,
};
use crate::unicode::REPLACEMENT;

verus! {

/// Whether tokens whose text is `decoded` make up whole characters, where the text of all tokens
/// is `full` and theirs starts at `offset` in it: `decoded` holds no replacement character, or
/// `full` holds one at the same place.
pub open spec fn closes(full: Seq<char>, offset: nat, decoded: Seq<char>) -> bool {
    let at = offset + first_position(decoded, REPLACEMENT);
    ||| !decoded.contains(REPLACEMENT)
    ||| at < full.len() && full[at as int] == REPLACEMENT
}

/// The least number of tokens, from `n` on, that make up whole characters; 0 where there is none.
pub open spec fn group_len(
    ids: Seq<u32>,
    full: Seq<char>,
    offset: nat,
    tokens: Map<u32, Seq<u8>>,
    n: nat,
) -> nat
    decreases ids.len() + 1 - n,
{
    if n > ids.len() {
        0
    } else if closes(full, offset, text_of_ids(ids.take(n as int), tokens)) {
        n
    } else {
        group_len(ids, full, offset, tokens, n + 1)
    }
}

/// The least number of tokens that make up whole characters is within the list.
pub proof fn lemma_group_len(
    ids: Seq<u32>,
    full: Seq<char>,
    offset: nat,
    tokens: Map<u32, Seq<u8>>,
    n: nat,
)
    ensures
        group_len(ids, full, offset, tokens, n) == 0 || n <= group_len(
            ids,
            full,
            offset,
            tokens,
            n,
        ) <= ids.len(),
    decreases ids.len() + 1 - n,
{
    if n <= ids.len() && !closes(full, offset, text_of_ids(ids.take(n as int), tokens)) {
        lemma_group_len(ids, full, offset, tokens, n + 1);
    }
}

/// The shortest groups of tokens, one after the other, that make up whole characters. Tokens at
/// the end that make up none are left out.
pub open spec fn unicode_groups(
    ids: Seq<u32>,
    full: Seq<char>,
    offset: nat,
    tokens: Map<u32, Seq<u8>>,
) -> Seq<Seq<u32>>
    decreases ids.len(),
{
    let n = group_len(ids, full, offset, tokens, 1);
    if n == 0 {
        seq![]
    } else {
        proof {
            lemma_group_len(ids, full, offset, tokens, 1);
        }
        let group = ids.take(n as int);
        seq![group] + unicode_groups(
            ids.skip(n as int),
            full,
            offset + text_of_ids(group, tokens).len(),
            tokens,
        )
    }
}

/// The groups of all of `ids`.
pub open spec fn groups_of(ids: Seq<u32>, tokens: Map<u32, Seq<u8>>) -> Seq<Seq<u32>> {
    unicode_groups(ids, text_of_ids(ids, tokens), 0, tokens)
}

/// Whether `c` is an ASCII punctuation character.
pub open spec fn ascii_punctuation(c: char) -> bool {
    let u = c as u32;
    ||| 0x21 <= u <= 0x2f
    ||| 0x3a <= u <= 0x40
    ||| 0x5b <= u <= 0x60
    ||| 0x7b <= u <= 0x7e
}

/// Whether a group starts a word: it is special, or starts with a space, or is one punctuation
/// character apart from white space.
pub open spec fn starts_word(text: Seq<char>, ids: Seq<u32>, eot: u32) -> bool {
    let bare = trimmed(text, TrimSet::White);
    ||| ids.len() > 0 && ids[0] >= eot
    ||| text.len() > 0 && text[0] == ' '
    ||| bare.len() == 1 && ascii_punctuation(bare[0])
}

/// The words that groups make up: a group that starts no word is added to the word before it,
/// unless it is the first.
pub open spec fn words_of(
    groups: Seq<Seq<u32>>,
    tokens: Map<u32, Seq<u8>>,
    eot: u32,
) -> Seq<(Seq<char>, Seq<u32>)>
    decreases groups.len(),
{
    if groups.len() == 0 {
        seq![]
    } else {
        let before = words_of(groups.drop_last(), tokens, eot);
        let ids = groups.last();
        let text = text_of_ids(ids, tokens);
        if before.len() == 0 || starts_word(text, ids, eot) {
            before.push((text, ids))
        } else {
            before.drop_last().push((before.last().0 + text, before.last().1 + ids))
        }
    }
}

/// The tokens of each word.
pub open spec fn word_ids(words: Seq<(Seq<char>, Seq<u32>)>) -> Seq<Seq<u32>> {
    words.map_values(|w: (Seq<char>, Seq<u32>)| w.1)
}

/// The groups, put together, are the first tokens of the list; and none of them is empty.
pub proof fn groups_are_a_prefix(
    ids: Seq<u32>,
    full: Seq<char>,
    offset: nat,
    tokens: Map<u32, Seq<u8>>,
)
    ensures
        unicode_groups(ids, full, offset, tokens).flatten().is_prefix_of(ids),
        forall|i: int|
            0 <= i < unicode_groups(ids, full, offset, tokens).len() ==> (
            #[trigger] unicode_groups(ids, full, offset, tokens)[i]).len() > 0,
    decreases ids.len(),
{
    let n = group_len(ids, full, offset, tokens, 1) as int;
    let groups = unicode_groups(ids, full, offset, tokens);
    if n == 0 {
        assert(groups.flatten() =~= Seq::<u32>::empty());
    } else {
        lemma_group_len(ids, full, offset, tokens, 1);
        let next = offset + text_of_ids(ids.take(n), tokens).len();
        let rest = unicode_groups(ids.skip(n), full, next, tokens);
        groups_are_a_prefix(ids.skip(n), full, next, tokens);
        assert(groups.drop_first() =~= rest);
        assert(groups.flatten() =~= ids.take(n) + rest.flatten());
        let m = rest.flatten().len() as int;
        assert(rest.flatten() =~= ids.skip(n).take(m));
        assert(groups.flatten() =~= ids.take(n + m));
        assert forall|i: int| 0 <= i < groups.len() implies (#[trigger] groups[i]).len() > 0 by {
            if i > 0 {
                assert(groups[i] == rest[i - 1]);
            }
        }
    }
}

/// The words hold the tokens of the groups, in order.
pub proof fn words_hold_the_groups(groups: Seq<Seq<u32>>, tokens: Map<u32, Seq<u8>>, eot: u32)
    ensures
        word_ids(words_of(groups, tokens, eot)).flatten() == groups.flatten(),
        groups.len() > 0 ==> words_of(groups, tokens, eot).len() > 0,
    decreases groups.len(),
{
    let words = words_of(groups, tokens, eot);
    if groups.len() == 0 {
        assert(word_ids(words) =~= Seq::<Seq<u32>>::empty());
        assert(groups =~= Seq::<Seq<u32>>::empty());
    } else {
        let before = words_of(groups.drop_last(), tokens, eot);
        let ids = groups.last();
        words_hold_the_groups(groups.drop_last(), tokens, eot);
        groups.drop_last().lemma_flatten_push(ids);
        assert(groups.drop_last().push(ids) =~= groups);
        if before.len() == 0 || starts_word(text_of_ids(ids, tokens), ids, eot) {
            assert(word_ids(words) =~= word_ids(before).push(ids));
            word_ids(before).lemma_flatten_push(ids);
        } else {
            let kept = word_ids(before.drop_last());
            let last = before.last().1;
            assert(word_ids(words) =~= kept.push(last + ids));
            assert(word_ids(before) =~= kept.push(last));
            kept.lemma_flatten_push(last + ids);
            kept.lemma_flatten_push(last);
        }
    }
}

/// The words of a list of tokens hold its first tokens, in order: all but those at the end that
/// make up no whole character.
pub proof fn words_are_a_prefix(ids: Seq<u32>, tokens: Map<u32, Seq<u8>>, eot: u32)
    ensures
        word_ids(words_of(groups_of(ids, tokens), tokens, eot)).flatten().is_prefix_of(ids),
{
    groups_are_a_prefix(ids, text_of_ids(ids, tokens), 0, tokens);
    words_hold_the_groups(groups_of(ids, tokens), tokens, eot);
}

/// Whether the bytes of all of `ids` are UTF-8, of a text without U+FFFD.
pub open spec fn is_whole(ids: Seq<u32>, tokens: Map<u32, Seq<u8>>) -> bool {
    let bytes = bytes_of_ids(ids, tokens);
    valid_utf8(bytes) && !decode_utf8(bytes).contains(REPLACEMENT)
}

/// The texts of groups, one behind the other.
pub open spec fn text_of_groups(groups: Seq<Seq<u32>>, tokens: Map<u32, Seq<u8>>) -> Seq<char>
    decreases groups.len(),
{
    if groups.len() == 0 {
        seq![]
    } else {
        text_of_groups(groups.drop_last(), tokens) + text_of_ids(groups.last(), tokens)
    }
}

/// The texts of words, one behind the other.
pub open spec fn text_of_words(words: Seq<(Seq<char>, Seq<u32>)>) -> Seq<char>
    decreases words.len(),
{
    if words.len() == 0 {
        seq![]
    } else {
        text_of_words(words.drop_last()) + words.last().0
    }
}

/// The words have the text of the groups.
pub proof fn words_have_the_text_of_the_groups(
    groups: Seq<Seq<u32>>,
    tokens: Map<u32, Seq<u8>>,
    eot: u32,
)
    ensures
        text_of_words(words_of(groups, tokens, eot)) == text_of_groups(groups, tokens),
    decreases groups.len(),
{
    let words = words_of(groups, tokens, eot);
    if groups.len() > 0 {
        let before = words_of(groups.drop_last(), tokens, eot);
        let ids = groups.last();
        let text = text_of_ids(ids, tokens);
        words_have_the_text_of_the_groups(groups.drop_last(), tokens, eot);
        if before.len() == 0 || starts_word(text, ids, eot) {
            assert(words.drop_last() =~= before);
        } else {
            assert(words.drop_last() =~= before.drop_last());
            assert(text_of_words(words) =~= text_of_words(before) + text);
        }
    }
}

/// Whether the groups of `ids` hold all of them and have their text, where that is whole.
pub open spec fn groups_are_complete(ids: Seq<u32>, tokens: Map<u32, Seq<u8>>) -> bool {
    is_whole(ids, tokens) ==> {
        &&& groups_of(ids, tokens).flatten() == ids
        &&& text_of_groups(groups_of(ids, tokens), tokens) == text_of_ids(ids, tokens)
    }
}

/// Where the groups hold all tokens and have their text, so do the words.
pub proof fn complete_groups_make_complete_words(
    ids: Seq<u32>,
    tokens: Map<u32, Seq<u8>>,
    eot: u32,
)
    requires
        groups_are_complete(ids, tokens),
        is_whole(ids, tokens),
    ensures
        word_ids(words_of(groups_of(ids, tokens), tokens, eot)).flatten() == ids,
        text_of_words(words_of(groups_of(ids, tokens), tokens, eot)) == text_of_ids(ids, tokens),
{
    words_hold_the_groups(groups_of(ids, tokens), tokens, eot);
    words_have_the_text_of_the_groups(groups_of(ids, tokens), tokens, eot);
}

/// What lies between `a` and `b` in a whole list, where what lies before `a` is UTF-8: the text up
/// to `b` is the text up to `a` with the text between them behind it.
proof fn lemma_next_part(ids: Seq<u32>, tokens: Map<u32, Seq<u8>>, a: int, b: int)
    requires
        0 <= a <= b <= ids.len(),
        valid_utf8(bytes_of_ids(ids.take(a), tokens)),
        valid_utf8(bytes_of_ids(ids.subrange(a, b), tokens)) || valid_utf8(
            bytes_of_ids(ids.take(b), tokens),
        ),
    ensures
        valid_utf8(bytes_of_ids(ids.subrange(a, b), tokens)),
        valid_utf8(bytes_of_ids(ids.take(b), tokens)),
        decode_utf8(bytes_of_ids(ids.take(b), tokens)) == decode_utf8(
            bytes_of_ids(ids.take(a), tokens),
        ) + decode_utf8(bytes_of_ids(ids.subrange(a, b), tokens)),
{
    let p = bytes_of_ids(ids.take(a), tokens);
    let q = bytes_of_ids(ids.subrange(a, b), tokens);
    assert(ids.take(a) + ids.subrange(a, b) =~= ids.take(b));
    decoding_distributes(ids.take(a), ids.subrange(a, b), tokens);
    if valid_utf8(q) {
        valid_utf8_concat(p, q);
    }
    utf8_behind_utf8(p, q);
}

/// Whether two lists pair up the texts and the tokens of a list of groups.
pub open spec fn shows_groups(
    texts: Seq<String>,
    lists: Seq<Vec<u32>>,
    groups: Seq<Seq<u32>>,
    tokens: Map<u32, Seq<u8>>,
) -> bool {
    &&& texts.len() == groups.len()
    &&& lists.len() == groups.len()
    &&& forall|i: int| 0 <= i < groups.len() ==> (#[trigger] lists[i])@ == groups[i]
    &&& forall|i: int|
        0 <= i < groups.len() ==> (#[trigger] texts[i])@ == text_of_ids(groups[i], tokens)
}

/// Whether two lists pair up the texts and the tokens of a list of words.
pub open spec fn shows_words(
    texts: Seq<String>,
    lists: Seq<Vec<u32>>,
    words: Seq<(Seq<char>, Seq<u32>)>,
) -> bool {
    &&& texts.len() == words.len()
    &&& lists.len() == words.len()
    &&& forall|i: int| 0 <= i < words.len() ==> (#[trigger] lists[i])@ == words[i].1
    &&& forall|i: int| 0 <= i < words.len() ==> (#[trigger] texts[i])@ == words[i].0
}

/// Whether tokens whose text is `decoded` make up whole characters. `offset` is where their text
/// starts in `full`, or the length of `full` where it starts beyond it.
fn check_closes(full: &[char], offset: usize, decoded: &[char], Ghost(start): Ghost<nat>) -> (r:
    bool)
    requires
        offset == (if start < full@.len() {
            start
        } else {
            full@.len()
        }),
    ensures
        r == closes(full@, start, decoded@),
{
    let p: usize = find_char(decoded, REPLACEMENT);
    proof {
        lemma_first_position(decoded@, REPLACEMENT);
    }
    if p == decoded.len() {
        return true;
    }
    p < full.len() - offset && full[offset + p] == REPLACEMENT
}

/// Groups tokens into the shortest runs that make up whole characters. Where the tokens are those
/// of a whole text, the groups hold all of them and have that text.
pub fn group_tokens(encoding: &Encoding, ids: &[u32]) -> (r: (Vec<String>, Vec<Vec<u32>>))
    ensures
        shows_groups(r.0@, r.1@, groups_of(ids@, encoding.vocab@), encoding.vocab@),
        groups_are_complete(ids@, encoding.vocab@),
{
    let ghost tokens = encoding.vocab@;
    let full_text = encoding.decode(ids);
    let full = chars_of(full_text.as_str());
    let ghost all = groups_of(ids@, tokens);
    let mut texts: Vec<String> = Vec::new();
    let mut lists: Vec<Vec<u32>> = Vec::new();
    let mut offset: usize = 0;
    let ghost mut start: nat = 0;
    let mut a: usize = 0;
    let mut b: usize = 0;
    let ghost whole = is_whole(ids@, tokens);
    assert(ids@.skip(0) =~= ids@);
    proof {
        assert(ids@.take(0) =~= Seq::<u32>::empty());
        assert(bytes_of_ids(ids@.take(0), tokens) =~= Seq::<u8>::empty());
        assert(all.take(0) =~= Seq::<Seq<u32>>::empty());
        assert(decode_utf8(bytes_of_ids(ids@.take(0), tokens)) =~= Seq::<char>::empty());
        assert(all.take(0).flatten() =~= ids@.take(0));
    }
    while b < ids.len()
        invariant
            whole == is_whole(ids@, tokens),
            whole ==> {
                &&& valid_utf8(bytes_of_ids(ids@.take(a as int), tokens))
                &&& start == decode_utf8(bytes_of_ids(ids@.take(a as int), tokens)).len()
                &&& text_of_groups(all.take(lists@.len() as int), tokens) == decode_utf8(
                    bytes_of_ids(ids@.take(a as int), tokens),
                )
                &&& all.take(lists@.len() as int).flatten() == ids@.take(a as int)
            },
            a < b ==> !closes(
                full@,
                start,
                text_of_ids(ids@.subrange(a as int, b as int), tokens),
            ),
            tokens == encoding.vocab@,
            full@ == text_of_ids(ids@, tokens),
            all == groups_of(ids@, tokens),
            a <= b <= ids@.len(),
            offset == (if start < full@.len() {
                start
            } else {
                full@.len()
            }),
            texts@.len() == lists@.len(),
            ({
                let rest = unicode_groups(ids@.skip(a as int), full@, start, tokens);
                &&& all.len() == lists@.len() + rest.len()
                &&& forall|i: int|
                    0 <= i < rest.len() ==> all[lists@.len() + i] == #[trigger] rest[i]
            }),
            group_len(ids@.skip(a as int), full@, start, tokens, 1) == group_len(
                ids@.skip(a as int),
                full@,
                start,
                tokens,
                (b - a + 1) as nat,
            ),
            forall|i: int| 0 <= i < lists@.len() ==> (#[trigger] lists@[i])@ == all[i],
            forall|i: int|
                0 <= i < lists@.len() ==> (#[trigger] texts@[i])@ == text_of_ids(all[i], tokens),
        decreases ids@.len() - b,
    {
        b += 1;
        let group = &ids[a..b];
        let ghost rest = ids@.skip(a as int);
        let ghost groups = unicode_groups(rest, full@, start, tokens);
        assert(group@ =~= rest.take(b - a));
        let text = encoding.decode(group);
        let decoded = chars_of(text.as_str());
        if check_closes(&full, offset, &decoded, Ghost(start)) {
            let ghost n = (b - a) as int;
            assert(group_len(rest, full@, start, tokens, 1) == n);
            let ghost next = start + decoded@.len();
            let ghost after = unicode_groups(rest.skip(n), full@, next, tokens);
            assert(groups == seq![group@] + after);
            assert(rest.skip(n) =~= ids@.skip(b as int));
            assert(all[lists@.len() as int] == groups[0]);
            assert forall|i: int| 0 <= i < after.len() implies all[(lists@.len() + 1) + i]
                == #[trigger] after[i] by {
                assert(all[lists@.len() + (i + 1)] == groups[i + 1]);
            }
            proof {
                let done = all.take(lists@.len() as int);
                let more = all.take(lists@.len() as int + 1);
                assert(more =~= done.push(group@));
                assert(more.drop_last() =~= done);
                if whole {
                    assert(full@ == decode_utf8(bytes_of_ids(ids@, tokens)));
                    assert(!decoded@.contains(REPLACEMENT)) by {
                        if decoded@.contains(REPLACEMENT) {
                            let at = start + first_position(decoded@, REPLACEMENT);
                            assert(full@.contains(full@[at as int]));
                        }
                    }
                    assert(group@ =~= ids@.subrange(a as int, b as int));
                    lemma_next_part(ids@, tokens, a as int, b as int);
                    done.lemma_flatten_push(group@);
                    assert(ids@.take(a as int) + group@ =~= ids@.take(b as int));
                }
            }
            if decoded.len() < full.len() - offset {
                offset += decoded.len();
            } else {
                offset = full.len();
            }
            proof {
                start = next;
            }
            texts.push(text);
            lists.push(slice_to_vec(group));
            a = b;
        }
    }
    assert(group_len(ids@.skip(a as int), full@, start, tokens, (b - a + 1) as nat) == 0);
    assert(unicode_groups(ids@.skip(a as int), full@, start, tokens).len() == 0);
    assert(all.len() == lists@.len());
    proof {
        assert(all.take(all.len() as int) =~= all);
        assert(ids@.take(ids@.len() as int) =~= ids@);
        if whole {
            lemma_next_part(ids@, tokens, a as int, ids@.len() as int);
            if a < b {
                let rest = decode_utf8(bytes_of_ids(ids@.subrange(a as int, b as int), tokens));
                let done = decode_utf8(bytes_of_ids(ids@.take(a as int), tokens));
                assert(!rest.contains(REPLACEMENT)) by {
                    if rest.contains(REPLACEMENT) {
                        let k = choose|k: int| 0 <= k < rest.len() && rest[k] == REPLACEMENT;
                        assert(full@[done.len() + k] == REPLACEMENT);
                        assert(full@.contains(REPLACEMENT));
                    }
                }
                assert(closes(
                    full@,
                    start,
                    text_of_ids(ids@.subrange(a as int, b as int), tokens),
                ));
            }
        }
    }
    (texts, lists)
}

/// Whether a group starts a word.
fn check_starts_word(text: &str, ids: &[u32], eot: u32) -> (r: bool)
    ensures
        r == starts_word(text@, ids@, eot),
{
    let chars = chars_of(text);
    let bare = trim(&chars, TrimSet::White);
    let punctuation = bare.len() == 1 && {
        let u: u32 = bare[0] as u32;
        (0x21 <= u && u <= 0x2f) || (0x3a <= u && u <= 0x40) || (0x5b <= u && u <= 0x60) || (0x7b
            <= u && u <= 0x7e)
    };
    (ids.len() > 0 && ids[0] >= eot) || (chars.len() > 0 && chars[0] == ' ') || punctuation
}

/// Two texts, one behind the other.
fn joined_text(a: &str, b: &str) -> (r: String)
    ensures
        r@ == a@ + b@,
{
    let mut chars = chars_of(a);
    let more = chars_of(b);
    chars.extend_from_slice(&more);
    string_of(&chars)
}

/// Puts groups together to words.
pub(crate) fn join_groups(
    texts: &Vec<String>,
    lists: &Vec<Vec<u32>>,
    eot: u32,
    Ghost(groups): Ghost<Seq<Seq<u32>>>,
    Ghost(tokens): Ghost<Map<u32, Seq<u8>>>,
) -> (r: (Vec<String>, Vec<Vec<u32>>))
    requires
        shows_groups(texts@, lists@, groups, tokens),
    ensures
        shows_words(r.0@, r.1@, words_of(groups, tokens, eot)),
{
    let mut words: Vec<String> = Vec::new();
    let mut word_lists: Vec<Vec<u32>> = Vec::new();
    let mut i: usize = 0;
    while i < texts.len()
        invariant
            i <= texts@.len(),
            shows_groups(texts@, lists@, groups, tokens),
            shows_words(words@, word_lists@, words_of(groups.take(i as int), tokens, eot)),
        decreases texts@.len() - i,
    {
        let ghost before = words_of(groups.take(i as int), tokens, eot);
        let ghost after = words_of(groups.take(i + 1), tokens, eot);
        assert(groups.take(i + 1).drop_last() =~= groups.take(i as int));
        assert(groups.take(i + 1).last() == groups[i as int]);
        assert(lists@[i as int]@ == groups[i as int]);
        let ghost text = text_of_ids(groups[i as int], tokens);
        assert(texts@[i as int]@ == text);
        assert(after == (if before.len() == 0 || starts_word(text, groups[i as int], eot) {
            before.push((text, groups[i as int]))
        } else {
            before.drop_last().push(
                (before.last().0 + text, before.last().1 + groups[i as int]),
            )
        }));
        let ghost old_words = words@;
        let ghost old_lists = word_lists@;
        let start = check_starts_word(texts[i].as_str(), &lists[i], eot);
        if words.len() == 0 || start {
            words.push(texts[i].clone());
            word_lists.push(slice_to_vec(&lists[i]));
            assert forall|j: int| 0 <= j < after.len() implies (#[trigger] word_lists@[j])@
                == after[j].1 by {
                if j < before.len() {
                    assert(old_lists[j]@ == before[j].1);
                }
            }
            assert forall|j: int| 0 <= j < after.len() implies (#[trigger] words@[j])@
                == after[j].0 by {
                if j < before.len() {
                    assert(old_words[j]@ == before[j].0);
                }
            }
        } else {
            let last: usize = words.len() - 1;
            let text = joined_text(words[last].as_str(), texts[i].as_str());
            let mut list = slice_to_vec(&word_lists[last]);
            list.extend_from_slice(&lists[i]);
            assert(word_lists@[last as int]@ == before[last as int].1);
            words.set(last, text);
            word_lists.set(last, list);
            assert forall|j: int| 0 <= j < after.len() implies (#[trigger] word_lists@[j])@
                == after[j].1 by {
                assert(old_lists[j]@ == before[j].1);
            }
            assert forall|j: int| 0 <= j < after.len() implies (#[trigger] words@[j])@
                == after[j].0 by {
                assert(old_words[j]@ == before[j].0);
            }
        }
        i += 1;
    }
    assert(groups.take(i as int) =~= groups);
    (words, word_lists)
}

} // verus!
