//! What masks, windows, tables and results hold, item by item.

use vstd::prelude::*;
use vstd::utf8::encode_utf8;

use crate::archive::array_views;
use crate::decoding::{
    either, is_ratio, masks_ids, ratio_of, stamp_layout_of, stamps_until, zlib_expanded,
    DecodingOptions, TokenFilters,
};
use crate::encoding::{
    entry_ranks, entry_tokens, lemma_other_ranks, lemma_other_tokens, lemma_special_ranks,
    lemma_special_tokens, text_of_ids, Encoding,
};
use crate::load_models::{slot_views, WeightSlot};
use crate::npz::NpyArray;
use crate::roundtrip::{is_special, regular, regular_vocabularies_are_faithful};
use crate::special::{special_body, special_bytes, special_count};
use crate::tokenizer::Tokenizer;
use crate::transcribe::{models, Segment, Transcription};
use crate::vocabulary::entry_views;
use crate::words::{shows_groups, shows_words};

verus! {

// Masks.

/// A mask suppresses a token if and only if its id is listed.
pub proof fn masks_suppress_what_is_listed(mask: Seq<bool>, ids: Seq<u32>, i: int)
    requires
        masks_ids(mask, ids),
        0 <= i < mask.len(),
    ensures
        mask[i] <==> exists|k: int| 0 <= k < ids.len() && #[trigger] ids[k] == i,
{
    if mask[i] {
        assert(ids.contains(i as u32));
    }
    if exists|k: int| 0 <= k < ids.len() && #[trigger] ids[k] == i {
        let k = choose|k: int| 0 <= k < ids.len() && #[trigger] ids[k] == i;
        assert(ids[k] == i as u32);
    }
}

/// Of two masks over the same tokens, both suppress.
pub proof fn both_masks_suppress(a: Seq<bool>, b: Seq<bool>, i: int)
    requires
        a.len() == b.len(),
        0 <= i < a.len(),
    ensures
        either(a, b).len() == a.len(),
        either(a, b)[i] <==> (a[i] || b[i]),
{
}

/// Blanks are suppressed where the first token is sampled, and nowhere else.
pub proof fn blanks_are_suppressed_first(f: TokenFilters, n: nat, sample_begin: nat, i: int)
    ensures
        f.suppress@[i] ==> f.filtered(n, sample_begin, i),
        n != sample_begin || f.blank is None ==> f.filtered(n, sample_begin, i) == f.suppress@[i],
        f.blank is Some && n == sample_begin ==> (f.filtered(n, sample_begin, i) <==> (
        f.suppress@[i] || f.blank->0@[i])),
{
}

/// The first timestamp is limited by a time only where timestamps are sampled.
pub proof fn the_first_timestamp_is_limited_by_a_time(o: DecodingOptions, n: nat)
    ensures
        o.max_initial_index_of(n) is Some <==> !o.without_timestamps
            && o.max_initial_timestamp is Some,
        o.max_initial_index_of(n) matches Some(i) ==> i == stamps_until(
            o.max_initial_timestamp->0 as nat,
            n,
        ),
{
}

/// The ids of the rules are those of the special tokens: the timestamps start right behind the token
/// that turns them off, which stands behind the languages and the other special tokens.
pub proof fn the_rules_know_the_special_tokens(t: Tokenizer)
    requires
        t.encoding.wf(),
    ensures
        stamp_layout_of(t).eot == t.encoding.eot_token,
        stamp_layout_of(t).no_timestamps == t.encoding.eot_token + t.encoding.width + 7,
        stamp_layout_of(t).ts_begin == t.encoding.eot_token + t.encoding.width + 8,
        t.ts_begin() == t.encoding.eot_token + t.encoding.width + 8,
{
}

// Compression.

/// A compression ratio is that of a size to the compressed size; without a compressed size it is 1,
/// and of nothing it is 0.
pub proof fn ratios_are_those_of_two_sizes(raw: nat, size: nat)
    ensures
        ratio_of(0, Some(size)) == (0nat, 1nat),
        ratio_of(0, None) == (0nat, 1nat),
        raw > 0 && size > 0 ==> ratio_of(raw, Some(size)) == (raw, size),
        raw > 0 ==> ratio_of(raw, Some(0)) == (1nat, 1nat) && ratio_of(raw, None) == (1nat, 1nat),
{
}

/// The ratio of a text is that of its size to the size of some compressed form of it.
pub proof fn ratios_tell_how_a_text_is_compressed(text: Seq<char>, ratio: (usize, usize)) -> (out:
    Seq<u8>)
    requires
        is_ratio(text, ratio),
    ensures
        text.len() == 0 ==> ratio.0 == 0 && ratio.1 == 1,
        text.len() > 0 ==> ratio.0 == encode_utf8(text).len() && ratio.1 == out.len() && out.len()
            > 0 && zlib_expanded(out) == Some(encode_utf8(text)),
{
    choose|out: Seq<u8>| #[trigger]
        zlib_expanded(out) == Some(encode_utf8(text)) && ratio.1 == out.len()
}

// Transcripts.

/// A segment is known by its times, its text and its tokens.
pub proof fn segments_are_known_by_their_contents(segments: Seq<Segment>, i: int)
    requires
        0 <= i < segments.len(),
    ensures
        models(segments).len() == segments.len(),
        models(segments)[i].seek == segments[i].seek,
        models(segments)[i].start == segments[i].start,
        models(segments)[i].end == segments[i].end,
        models(segments)[i].text == segments[i].text@,
        models(segments)[i].tokens == segments[i].tokens@,
{
}

/// Windows follow the audio to its end: a window is full unless the audio ends within it, and there
/// is one as long as there is audio left.
pub proof fn windows_are_full_up_to_the_end(t: Transcription)
    ensures
        t.has_window() <==> t.seek < t.content_frames,
        t.has_window() ==> {
            let w = t.window();
            &&& w.seek == t.seek
            &&& w.stride == t.stride
            &&& 0 < w.size <= 3000
            &&& w.size == 3000 || w.seek + w.size == t.content_frames
            &&& w.seek + w.size <= t.content_frames
        },
        forall|b: u32|
            {
                let m = #[trigger] t.window().model(b);
                &&& m.seek == t.window().seek
                &&& m.size == t.window().size
                &&& m.stride == t.window().stride
                &&& m.ts_begin == b
            },
{
}

/// The text before a window is all that was said since it was last left out.
pub proof fn the_text_before_is_all_since_the_last_reset(t: Transcription)
    requires
        t.wf(),
    ensures
        t.all_tokens@ == t.all_tokens@.take(t.prompt_reset_since as int) + t.prompt_tokens(),
{
}

// Words.

/// Groups are shown with their tokens and the text of these.
pub proof fn groups_are_shown_with_their_text(
    texts: Seq<String>,
    lists: Seq<Vec<u32>>,
    groups: Seq<Seq<u32>>,
    tokens: Map<u32, Seq<u8>>,
    i: int,
)
    requires
        shows_groups(texts, lists, groups, tokens),
        0 <= i < groups.len(),
    ensures
        texts.len() == groups.len() == lists.len(),
        lists[i]@ == groups[i],
        texts[i]@ == text_of_ids(lists[i]@, tokens),
{
}

/// Words are shown with their text and their tokens.
pub proof fn words_are_shown_with_their_text(
    texts: Seq<String>,
    lists: Seq<Vec<u32>>,
    words: Seq<(Seq<char>, Seq<u32>)>,
    i: int,
)
    requires
        shows_words(texts, lists, words),
        0 <= i < words.len(),
    ensures
        texts.len() == words.len() == lists.len(),
        words[i] == (texts[i]@, lists[i]@),
{
}

// Files.

/// Each entry of a vocabulary is a token and its rank.
pub proof fn entries_are_tokens_and_ranks(entries: Seq<(Vec<u8>, u32)>, i: int)
    requires
        0 <= i < entries.len(),
    ensures
        entry_views(entries).len() == entries.len(),
        entry_views(entries)[i] == (entries[i].0@, entries[i].1),
{
}

/// Each array of an archive has a name, a type, a shape and its items.
pub proof fn arrays_have_name_type_shape_and_items(arrays: Seq<(String, NpyArray)>, i: int)
    requires
        0 <= i < arrays.len(),
    ensures
        array_views(arrays).len() == arrays.len(),
        array_views(arrays)[i].0 == arrays[i].0@,
        array_views(arrays)[i].1 == arrays[i].1.dtype,
        array_views(arrays)[i].2 == arrays[i].1.shape@,
        array_views(arrays)[i].3 == arrays[i].1.data@,
{
}

/// Each slot for weights has a key, and may be required.
pub proof fn slots_have_keys(slots: Seq<WeightSlot>, i: int)
    requires
        0 <= i < slots.len(),
    ensures
        slot_views(slots).len() == slots.len(),
        slot_views(slots)[i] == (slots[i].key@, slots[i].required),
{
}

// Vocabularies.

/// Of pairs with the same token the last one gives the rank, and of pairs with the same rank the last
/// one gives the token; what no pair holds is in neither table.
pub proof fn the_last_pair_counts(file: Seq<(Seq<u8>, u32)>, i: int)
    requires
        0 <= i < file.len(),
    ensures
        (forall|j: int| i < j < file.len() ==> (#[trigger] file[j]).0 != file[i].0)
            ==> entry_ranks(file).contains_pair(file[i].0, file[i].1),
        (forall|j: int| i < j < file.len() ==> (#[trigger] file[j]).1 != file[i].1)
            ==> entry_tokens(file).contains_pair(file[i].1, file[i].0),
        entry_ranks(file).contains_key(file[i].0),
        entry_tokens(file).contains_key(file[i].1),
    decreases file.len(),
{
    let before = file.drop_last();
    assert(forall|j: int| 0 <= j < before.len() ==> #[trigger] before[j] == file[j]);
    assert(file.last() == file[file.len() - 1]);
    if i < before.len() {
        the_last_pair_counts(before, i);
    }
}

/// The tables of a vocabulary hold nothing but its pairs.
pub proof fn only_pairs_of_the_file_count(file: Seq<(Seq<u8>, u32)>, bytes: Seq<u8>, id: u32)
    ensures
        entry_ranks(file).contains_key(bytes) ==> exists|i: int|
            0 <= i < file.len() && #[trigger] file[i] == (bytes, entry_ranks(file)[bytes]),
        entry_tokens(file).contains_key(id) ==> exists|i: int|
            0 <= i < file.len() && #[trigger] file[i] == (entry_tokens(file)[id], id),
    decreases file.len(),
{
    if file.len() > 0 {
        let before = file.drop_last();
        only_pairs_of_the_file_count(before, bytes, id);
        assert(forall|j: int| 0 <= j < before.len() ==> #[trigger] before[j] == file[j]);
        assert(file.last() == file[file.len() - 1]);
        if entry_ranks(file).contains_key(bytes) && bytes != file.last().0 {
            let i = choose|i: int|
                0 <= i < before.len() && #[trigger] before[i] == (bytes, entry_ranks(
                    before,
                )[bytes]);
            assert(file[i] == (bytes, entry_ranks(file)[bytes]));
        }
        if entry_tokens(file).contains_key(id) && id != file.last().1 {
            let i = choose|i: int|
                0 <= i < before.len() && #[trigger] before[i] == (entry_tokens(before)[id], id);
            assert(file[i] == (entry_tokens(file)[id], id));
        }
    }
}

/// The name of a special token stands in angle brackets and bars.
pub proof fn special_tokens_stand_in_brackets(width: nat, k: int)
    ensures
        special_bytes(width, k) == encode_utf8("<|"@ + special_body(width, k) + "|>"@),
{
    reveal_strlit("<|");
    reveal_strlit("|>");
    assert("<|"@ =~= seq!['<', '|']);
    assert("|>"@ =~= seq!['|', '>']);
}

/// An encoding made of a vocabulary of `n` tokens, ranked from 0 to `n - 1`, gives each of them its
/// rank as its id, and the special tokens the ids from `n` on.
pub proof fn encodings_number_tokens_by_rank(
    e: Encoding,
    file: Seq<(Seq<u8>, u32)>,
    name: Seq<char>,
    num_languages: nat,
    i: int,
    k: int,
)
    requires
        e.built_from(file, name, num_languages),
        regular(file, e.width as nat),
        0 <= i < file.len(),
        0 <= k < special_count(e.width as nat),
    ensures
        e.name@ == name,
        e.width == (if num_languages < 100 {
            num_languages
        } else {
            100
        }),
        e.eot_token == file.len(),
        e.vocab@.contains_pair(file[i].1, file[i].0),
        e.vocab@.contains_pair((file.len() + k) as u32, special_bytes(e.width as nat, k)),
        e.encoder@.contains_pair(special_bytes(e.width as nat, k), (file.len() + k) as u32),
        !is_special(e.width as nat, file[i].0) && (forall|j: int|
            i < j < file.len() ==> (#[trigger] file[j]).0 != file[i].0)
            ==> e.encoder@.contains_pair(file[i].0, file[i].1),
{
    let width = e.width as nat;
    let base = file.len();
    let count = special_count(width);
    regular_vocabularies_are_faithful(file, width);
    the_last_pair_counts(file, i);
    lemma_other_tokens(entry_tokens(file), width, base, count, file[i].1);
    lemma_special_tokens(entry_tokens(file), width, base, count, k);
    lemma_special_ranks(entry_ranks(file), width, base, count, k);
    if !is_special(width, file[i].0) {
        lemma_other_ranks(entry_ranks(file), width, base, count, file[i].0);
    }
}

proof fn lemma_ranks_are_finite(file: Seq<(Seq<u8>, u32)>)
    ensures
        entry_tokens(file).dom().finite(),
    decreases file.len(),
{
    if file.len() > 0 {
        lemma_ranks_are_finite(file.drop_last());
    }
}

/// The special tokens are numbered from the number of different ranks: a pair with a rank of its own
/// moves them on by one, and a pair with a rank that is taken does not.
pub proof fn different_ranks_count(
    e: Encoding,
    longer: Encoding,
    file: Seq<(Seq<u8>, u32)>,
    pair: (Seq<u8>, u32),
    name: Seq<char>,
    num_languages: nat,
)
    requires
        e.built_from(file, name, num_languages),
        longer.built_from(file.push(pair), name, num_languages),
    ensures
        file.len() == 0 ==> e.eot_token == 0,
        (exists|i: int| 0 <= i < file.len() && (#[trigger] file[i]).1 == pair.1)
            ==> longer.eot_token == e.eot_token,
        (forall|i: int| 0 <= i < file.len() ==> (#[trigger] file[i]).1 != pair.1)
            ==> longer.eot_token == e.eot_token + 1,
{
    lemma_ranks_are_finite(file);
    assert(file.push(pair).drop_last() =~= file);
    if exists|i: int| 0 <= i < file.len() && (#[trigger] file[i]).1 == pair.1 {
        let i = choose|i: int| 0 <= i < file.len() && (#[trigger] file[i]).1 == pair.1;
        the_last_pair_counts(file, i);
    } else {
        only_pairs_of_the_file_count(file, pair.0, pair.1);
    }
}

} // verus!
