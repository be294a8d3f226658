//! Decoding one window: which tokens may come next, when to stop, and what the result is.

use vstd::prelude::*;

use crate::encoding::{ids_of_text, text_of_ids};
use crate::numbers::{bounded_integer, parse_i64};
use crate::special::{
    no_speech_place, no_timestamps_place, start_of_lm_place, start_of_prev_place,
    start_of_transcript, timestamp_place, transcribe_place, translate_place,
};
use crate::symbols::is_non_speech;
use crate::text::{chars_of, slice_to_vec, split, split_at_char, string_of, trim, trimmed, TrimSet};
use crate::tokenizer::{ids_below, Tokenizer};

verus! {

/// What to decode, and how.
pub struct DecodingOptions {
    pub task: String,
    pub language: Option<String>,
    /// The largest number of tokens to sample; by default half of the text context.
    pub sample_len: Option<usize>,
    /// Whether no blank is allowed as the first token.
    pub suppress_blank: bool,
    /// The tokens that are never allowed: ids with commas between them, or `-1` for the
    /// non-speech tokens.
    pub suppress_tokens: Option<String>,
    pub without_timestamps: bool,
    /// The latest time, in microseconds, that is allowed as the first timestamp.
    pub max_initial_timestamp: Option<u64>,
    /// Tokens of the text before.
    pub prompt: Option<Vec<u32>>,
    /// The number of encoder positions to use; by default all of them.
    pub audio_ctx: Option<usize>,
}

impl Default for DecodingOptions {
    fn default() -> (r: Self)
        ensures
            r.task@ == "transcribe"@,
            r.language is None,
            r.sample_len is None,
            r.suppress_blank,
            r.suppress_tokens matches Some(s) && s@ == "-1"@,
            !r.without_timestamps,
            r.max_initial_timestamp == Some(1_000_000u64),
            r.prompt is None,
            r.audio_ctx is None,
    {
        DecodingOptions {
            task: "transcribe".to_owned(),
            language: None,
            sample_len: None,
            suppress_blank: true,
            suppress_tokens: Some("-1".to_owned()),
            without_timestamps: false,
            max_initial_timestamp: Some(1_000_000),
            prompt: None,
            audio_ctx: None,
        }
    }
}

// The masks: one entry for every token, which says whether it is suppressed.

/// Whether `i` is a token of `ids`.
pub open spec fn names_token(ids: Seq<u32>, i: int) -> bool {
    0 <= i <= u32::MAX && ids.contains(i as u32)
}

/// Whether `mask` suppresses exactly the tokens of `ids`.
pub open spec fn masks_ids(mask: Seq<bool>, ids: Seq<u32>) -> bool {
    forall|i: int| 0 <= i < mask.len() ==> (#[trigger] mask[i] <==> names_token(ids, i))
}

/// A mask over `n_vocab` tokens that suppresses `suppress_ids`. Ids beyond the vocabulary are
/// left out.
pub fn build_mask(suppress_ids: &[u32], n_vocab: usize) -> (r: Vec<bool>)
    ensures
        r@.len() == n_vocab,
        masks_ids(r@, suppress_ids@),
{
    let mut mask: Vec<bool> = Vec::new();
    let mut i: usize = 0;
    while i < n_vocab
        invariant
            i <= n_vocab,
            mask@.len() == i,
            forall|j: int| 0 <= j < mask@.len() ==> !(#[trigger] mask@[j]),
        decreases n_vocab - i,
    {
        mask.push(false);
        i += 1;
    }
    let mut k: usize = 0;
    assert(suppress_ids@.take(0) =~= Seq::<u32>::empty());
    while k < suppress_ids.len()
        invariant
            k <= suppress_ids@.len(),
            mask@.len() == n_vocab,
            masks_ids(mask@, suppress_ids@.take(k as int)),
        decreases suppress_ids@.len() - k,
    {
        let ghost before = mask@;
        let ghost done = suppress_ids@.take(k as int);
        let id: u32 = suppress_ids[k];
        if (id as u64) < n_vocab as u64 {
            mask.set(id as usize, true);
        }
        k += 1;
        assert(suppress_ids@.take(k as int) =~= done.push(id));
        assert forall|j: int| 0 <= j < mask@.len() implies (#[trigger] mask@[j]
            <==> names_token(suppress_ids@.take(k as int), j)) by {
            assert(before[j] <==> names_token(done, j));
            if done.contains(j as u32) {
                let p = choose|p: int| 0 <= p < done.len() && done[p] == j as u32;
                assert(done.push(id)[p] == j as u32);
            }
            if j == id {
                assert(done.push(id)[done.len() as int] == j as u32);
            }
            if names_token(done.push(id), j) && j != id {
                let p = choose|p: int|
                    0 <= p < done.push(id).len() && done.push(id)[p] == j as u32;
                assert(done[p] == j as u32);
            }
        }
    }
    assert(suppress_ids@.take(k as int) =~= suppress_ids@);
    mask
}

/// Two masks together.
pub open spec fn either(a: Seq<bool>, b: Seq<bool>) -> Seq<bool> {
    Seq::new(a.len(), |i: int| a[i] || b[i])
}

/// Suppresses the tokens of `mask` besides.
pub fn apply_suppress_tokens(suppressed: &Vec<bool>, mask: &Vec<bool>) -> (r: Vec<bool>)
    requires
        suppressed@.len() == mask@.len(),
    ensures
        r@ == either(suppressed@, mask@),
{
    let mut r: Vec<bool> = Vec::new();
    let mut i: usize = 0;
    while i < suppressed.len()
        invariant
            i <= suppressed@.len(),
            suppressed@.len() == mask@.len(),
            r@ == either(suppressed@, mask@).take(i as int),
        decreases suppressed@.len() - i,
    {
        r.push(suppressed[i] || mask[i]);
        i += 1;
        assert(r@ =~= either(suppressed@, mask@).take(i as int));
    }
    assert(either(suppressed@, mask@).take(i as int) =~= either(suppressed@, mask@));
    r
}

/// Suppresses the tokens of `mask` besides, at the first sampled position only.
pub fn apply_suppress_blank(
    suppressed: &Vec<bool>,
    tokens_len: usize,
    sample_begin: usize,
    mask: &Vec<bool>,
) -> (r: Vec<bool>)
    requires
        suppressed@.len() == mask@.len(),
    ensures
        r@ == (if tokens_len == sample_begin {
            either(suppressed@, mask@)
        } else {
            suppressed@
        }),
{
    if tokens_len == sample_begin {
        apply_suppress_tokens(suppressed, mask)
    } else {
        slice_to_vec(suppressed)
    }
}

/// What is suppressed before the timestamp rules: always the tokens of `suppress`, and at the first
/// sampled position those of `blank` besides, where there is such a mask.
pub fn base_mask(
    tokens_len: usize,
    sample_begin: usize,
    blank: Option<&Vec<bool>>,
    suppress: &Vec<bool>,
) -> (r: Vec<bool>)
    requires
        blank matches Some(b) ==> b@.len() == suppress@.len(),
    ensures
        r@ == (match blank {
            Some(b) => if tokens_len == sample_begin {
                either(b@, suppress@)
            } else {
                suppress@
            },
            None => suppress@,
        }),
{
    let none: Vec<bool> = vec![false; suppress.len()];
    let first = match blank {
        Some(b) => apply_suppress_blank(&none, tokens_len, sample_begin, b),
        None => none,
    };
    let r = apply_suppress_tokens(&first, suppress);
    assert(r@ =~= (match blank {
        Some(b) => if tokens_len == sample_begin {
            either(b@, suppress@)
        } else {
            suppress@
        },
        None => suppress@,
    }));
    r
}

/// The tokens that are suppressed as blank: those of a space, and the end of the text.
pub open spec fn blank_ids(t: Tokenizer) -> Seq<u32> {
    ids_of_text(" "@, t.encoding.encoder@).push(t.encoding.eot_token)
}

/// The mask of the blank tokens.
pub fn blank_mask(tokenizer: &Tokenizer, n_vocab: usize) -> (r: Vec<bool>)
    ensures
        r@.len() == n_vocab,
        masks_ids(r@, blank_ids(*tokenizer)),
{
    let mut ids = tokenizer.encode(" ");
    ids.push(tokenizer.eot());
    build_mask(&ids, n_vocab)
}

/// The numbers that a list names; what is no 64-bit number is left out.
pub open spec fn listed_numbers(parts: Seq<Seq<char>>) -> Seq<i64>
    decreases parts.len(),
{
    if parts.len() == 0 {
        seq![]
    } else {
        let before = listed_numbers(parts.drop_last());
        match bounded_integer(
            trimmed(parts.last(), TrimSet::White),
            true,
            i64::MIN as int,
            i64::MAX as int,
        ) {
            Some(v) => before.push(v as i64),
            None => before,
        }
    }
}

/// The numbers that a list with commas names.
pub open spec fn list_of(text: Seq<char>) -> Seq<i64> {
    listed_numbers(split(text, ','))
}

/// The low 32 bits of a number that is not negative.
pub open spec fn low_word(n: i64) -> u32 {
    (n as int % 0x1_0000_0000) as u32
}

/// Whether a list of suppressed tokens names `id`: by number, or as a non-speech token where the
/// list holds -1.
pub open spec fn list_names(list: Seq<i64>, ranks: Map<Seq<u8>, u32>, id: u32) -> bool {
    if list.contains(-1i64) {
        is_non_speech(ranks, id)
    } else {
        exists|k: int| 0 <= k < list.len() && #[trigger] list[k] >= 0 && low_word(list[k]) == id
    }
}

/// Whether `id` is a control token that is never sampled.
pub open spec fn is_control(t: Tokenizer, id: u32) -> bool {
    let width = t.encoding.width as nat;
    ||| id == t.encoding.special_id(transcribe_place(width))
    ||| id == t.encoding.special_id(translate_place(width))
    ||| id == t.encoding.special_id(start_of_transcript())
    ||| id == t.encoding.special_id(no_speech_place(width))
    ||| id == t.encoding.special_id(start_of_prev_place(width))
    ||| id == t.encoding.special_id(start_of_lm_place(width))
}

/// Whether `id` is suppressed at every position.
pub open spec fn is_suppressed(t: Tokenizer, text: Option<Seq<char>>, id: u32) -> bool {
    ||| is_control(t, id)
    ||| text matches Some(s) && list_names(list_of(s), t.encoding.encoder@, id)
}

/// Reads a list of numbers with commas between them.
pub fn parse_list(text: &str) -> (r: Vec<i64>)
    ensures
        r@ == list_of(text@),
{
    let chars = chars_of(text);
    let parts = split_at_char(&chars, ',');
    let ghost all = split(text@, ',');
    let mut list: Vec<i64> = Vec::new();
    let mut i: usize = 0;
    assert(listed_numbers(all.take(0)) =~= Seq::<i64>::empty());
    while i < parts.len()
        invariant
            i <= parts@.len(),
            parts@.len() == all.len(),
            forall|j: int| 0 <= j < parts@.len() ==> (#[trigger] parts@[j])@ == all[j],
            list@ == listed_numbers(all.take(i as int)),
        decreases parts@.len() - i,
    {
        assert(all.take(i + 1).drop_last() =~= all.take(i as int));
        assert(all.take(i + 1).last() == parts@[i as int]@);
        if let Some(v) = parse_i64(trim(&parts[i], TrimSet::White)) {
            list.push(v);
        }
        i += 1;
    }
    assert(all.take(i as int) =~= all);
    list
}

/// The tokens of a list without -1.
fn numbered_ids(list: &Vec<i64>) -> (r: Vec<u32>)
    ensures
        forall|id: u32| #[trigger]
            r@.contains(id) <==> exists|k: int|
                0 <= k < list@.len() && #[trigger] list@[k] >= 0 && low_word(list@[k]) == id,
{
    let mut r: Vec<u32> = Vec::new();
    let mut i: usize = 0;
    while i < list.len()
        invariant
            i <= list@.len(),
            forall|id: u32| #[trigger]
                r@.contains(id) <==> exists|k: int|
                    0 <= k < i && #[trigger] list@[k] >= 0 && low_word(list@[k]) == id,
        decreases list@.len() - i,
    {
        let ghost before = r@;
        let v: i64 = list[i];
        if v >= 0 {
            r.push((v % 0x1_0000_0000) as u32);
        }
        i += 1;
        assert forall|id: u32| #[trigger] r@.contains(id) <==> exists|k: int|
            0 <= k < i && #[trigger] list@[k] >= 0 && low_word(list@[k]) == id by {
            if before.contains(id) {
                let p = choose|p: int| 0 <= p < before.len() && before[p] == id;
                assert(r@[p] == id);
            }
            if v >= 0 && low_word(v) == id {
                assert(r@[r@.len() - 1] == id);
            }
            if r@.contains(id) {
                let p = choose|p: int| 0 <= p < r@.len() && r@[p] == id;
                if p < before.len() {
                    assert(before[p] == id);
                    let k = choose|k: int|
                        0 <= k < i - 1 && #[trigger] list@[k] >= 0 && low_word(list@[k]) == id;
                    assert(0 <= k < i && list@[k] >= 0);
                } else {
                    assert(list@[i - 1] >= 0 && low_word(list@[i - 1]) == id);
                }
            }
            if exists|k: int|
                0 <= k < i && #[trigger] list@[k] >= 0 && low_word(list@[k]) == id {
                let k = choose|k: int|
                    0 <= k < i && #[trigger] list@[k] >= 0 && low_word(list@[k]) == id;
                if k < i - 1 {
                    assert(before.contains(id));
                }
            }
        }
    }
    r
}

/// Whether a list holds -1.
fn holds_minus_one(list: &Vec<i64>) -> (r: bool)
    ensures
        r == list@.contains(-1i64),
{
    let mut i: usize = 0;
    while i < list.len()
        invariant
            i <= list@.len(),
            forall|j: int| 0 <= j < i ==> #[trigger] list@[j] != -1,
        decreases list@.len() - i,
    {
        if list[i] == -1 {
            assert(list@[i as int] == -1);
            return true;
        }
        i += 1;
    }
    false
}

/// The tokens that are suppressed at every position.
pub fn suppressed_ids(tokenizer: &Tokenizer, suppress_tokens: Option<&str>) -> (r: Vec<u32>)
    requires
        tokenizer.encoding.wf(),
    ensures
        forall|id: u32| #[trigger]
            r@.contains(id) <==> is_suppressed(
                *tokenizer,
                match suppress_tokens {
                    Some(s) => Some(s@),
                    None => None,
                },
                id,
            ),
{
    let mut ids: Vec<u32> = match suppress_tokens {
        Some(s) => {
            let list = parse_list(s);
            if holds_minus_one(&list) {
                tokenizer.non_speech_tokens()
            } else {
                numbered_ids(&list)
            }
        },
        None => Vec::new(),
    };
    let ghost base = ids@;
    ids.push(tokenizer.transcribe_token());
    ids.push(tokenizer.translate_token());
    ids.push(tokenizer.sot());
    ids.push(tokenizer.no_speech());
    ids.push(tokenizer.start_of_prev());
    ids.push(tokenizer.start_of_lm());
    proof {
        let n = base.len() as int;
        assert forall|id: u32| #[trigger] ids@.contains(id) <==> base.contains(id) || is_control(
            *tokenizer,
            id,
        ) by {
            if base.contains(id) {
                let p = choose|p: int| 0 <= p < base.len() && base[p] == id;
                assert(ids@[p] == id);
            }
            if is_control(*tokenizer, id) {
                assert(ids@[n] == id || ids@[n + 1] == id || ids@[n + 2] == id || ids@[n + 3] == id
                    || ids@[n + 4] == id || ids@[n + 5] == id);
            }
            if ids@.contains(id) {
                let p = choose|p: int| 0 <= p < ids@.len() && ids@[p] == id;
                if p < n {
                    assert(base[p] == id);
                }
            }
        }
    }
    ids
}

/// The mask of the tokens that are suppressed at every position.
pub fn suppress_mask(
    tokenizer: &Tokenizer,
    suppress_tokens: Option<&str>,
    n_vocab: usize,
) -> (r: Vec<bool>)
    requires
        tokenizer.encoding.wf(),
    ensures
        r@.len() == n_vocab,
        forall|i: int|
            0 <= i < r@.len() ==> (#[trigger] r@[i] <==> i <= u32::MAX && is_suppressed(
                *tokenizer,
                match suppress_tokens {
                    Some(s) => Some(s@),
                    None => None,
                },
                i as u32,
            )),
{
    let ids = suppressed_ids(tokenizer, suppress_tokens);
    build_mask(&ids, n_vocab)
}

// Timestamp rules.

/// The tokens that were sampled.
pub open spec fn sampled(tokens: Seq<u32>, sample_begin: int) -> Seq<u32> {
    if tokens.len() > sample_begin {
        tokens.skip(sample_begin)
    } else {
        seq![]
    }
}

/// Whether the last sampled token is a timestamp.
pub open spec fn ends_in_stamp(seq: Seq<u32>, ts_begin: int) -> bool {
    seq.len() > 0 && seq.last() >= ts_begin
}

/// Whether the token before the last is a timestamp, or there is none.
pub open spec fn stamp_before_last(seq: Seq<u32>, ts_begin: int) -> bool {
    seq.len() < 2 || seq[seq.len() - 2] >= ts_begin
}

/// The last sampled timestamp after that of 0 s.
pub open spec fn last_stamp(seq: Seq<u32>, ts_begin: int) -> Option<int>
    decreases seq.len(),
{
    if seq.len() == 0 {
        None
    } else if seq.last() > ts_begin {
        Some(seq.last() as int)
    } else {
        last_stamp(seq.drop_last(), ts_begin)
    }
}

/// Where the ids of special tokens lie that the timestamp rules speak of.
pub struct StampLayout {
    pub ts_begin: usize,
    pub eot: usize,
    pub no_timestamps: usize,
}

/// Whether the timestamp rules close token `i` after `tokens`.
///
/// - The token that turns timestamps off is always closed.
/// - After two timestamps no timestamp may follow; after text and a timestamp no text may follow,
///   but the end of the text may.
/// - Timestamps do not go back, and a segment does not end where it starts.
/// - The first sampled token is a timestamp, and not one after `max_index`.
pub open spec fn closed(
    tokens: Seq<u32>,
    sample_begin: int,
    layout: StampLayout,
    max_index: Option<usize>,
    i: int,
) -> bool {
    let seq = sampled(tokens, sample_begin);
    let ts = layout.ts_begin as int;
    let last = ends_in_stamp(seq, ts);
    let before = stamp_before_last(seq, ts);
    ||| i == layout.no_timestamps
    ||| last && before && i >= ts
    ||| last && !before && i < layout.eot
    ||| last_stamp(seq, ts) matches Some(t) && ts <= i < t + if !last || before {
        1int
    } else {
        0int
    }
    ||| tokens.len() == sample_begin && i < ts
    ||| tokens.len() == sample_begin && (max_index matches Some(m) && i > ts + m)
}

/// Closes the tokens from `a` up to `b`.
fn close_range(mask: &mut Vec<bool>, a: usize, b: usize)
    requires
        b <= old(mask)@.len(),
    ensures
        final(mask)@.len() == old(mask)@.len(),
        forall|i: int|
            0 <= i < old(mask)@.len() ==> #[trigger] final(mask)@[i] == (old(mask)@[i] || a <= i
                < b),
{
    let ghost before = mask@;
    let mut i: usize = a;
    while i < b
        invariant
            a <= i,
            a < b ==> i <= b,
            b <= mask@.len() == before.len(),
            forall|j: int|
                0 <= j < before.len() ==> #[trigger] mask@[j] == (before[j] || (a <= j < i && j
                    < b)),
        decreases b - i,
    {
        mask.set(i, true);
        i += 1;
    }
}

/// The last sampled timestamp after that of 0 s.
fn find_last_stamp(seq: &[u32], ts_begin: usize) -> (r: Option<u32>)
    ensures
        match r {
            Some(t) => last_stamp(seq@, ts_begin as int) == Some(t as int),
            None => last_stamp(seq@, ts_begin as int) is None,
        },
{
    let mut n: usize = seq.len();
    assert(seq@.take(n as int) =~= seq@);
    while n > 0
        invariant
            n <= seq@.len(),
            last_stamp(seq@.take(n as int), ts_begin as int) == last_stamp(seq@, ts_begin as int),
        decreases n,
    {
        assert(seq@.take(n as int).drop_last() =~= seq@.take(n - 1));
        if seq[n - 1] as u64 > ts_begin as u64 {
            return Some(seq[n - 1]);
        }
        n -= 1;
    }
    None
}

/// The mask of the timestamp rules.
pub fn timestamp_mask(
    tokens: &[u32],
    sample_begin: usize,
    layout: &StampLayout,
    max_initial_timestamp_index: Option<usize>,
    n_vocab: usize,
) -> (r: Vec<bool>)
    requires
        tokens@.len() == sample_begin ==> layout.ts_begin <= n_vocab,
        ends_in_stamp(sampled(tokens@, sample_begin as int), layout.ts_begin as int)
            && !stamp_before_last(sampled(tokens@, sample_begin as int), layout.ts_begin as int)
            ==> layout.eot <= n_vocab,
        max_initial_timestamp_index matches Some(m) ==> tokens@.len() == sample_begin
            ==> layout.ts_begin + m < usize::MAX,
    ensures
        r@.len() == n_vocab,
        forall|i: int|
            0 <= i < r@.len() ==> #[trigger] r@[i] == closed(
                tokens@,
                sample_begin as int,
                *layout,
                max_initial_timestamp_index,
                i,
            ),
{
    let ts: usize = layout.ts_begin;
    let mut mask: Vec<bool> = Vec::new();
    let mut i: usize = 0;
    while i < n_vocab
        invariant
            i <= n_vocab,
            mask@.len() == i,
            forall|j: int| 0 <= j < mask@.len() ==> !(#[trigger] mask@[j]),
        decreases n_vocab - i,
    {
        mask.push(false);
        i += 1;
    }
    if layout.no_timestamps < n_vocab {
        mask.set(layout.no_timestamps, true);
    }
    let empty: &[u32] = &tokens[0..0];
    let seq: &[u32] = if tokens.len() > sample_begin {
        &tokens[sample_begin..tokens.len()]
    } else {
        empty
    };
    assert(seq@ =~= sampled(tokens@, sample_begin as int));
    let last: bool = seq.len() > 0 && seq[seq.len() - 1] as u64 >= ts as u64;
    let before: bool = seq.len() < 2 || seq[seq.len() - 2] as u64 >= ts as u64;
    if last {
        if before {
            close_range(&mut mask, ts, n_vocab);
        } else {
            close_range(&mut mask, 0, layout.eot);
        }
    }
    if let Some(stamp) = find_last_stamp(seq, ts) {
        let bump: u64 = if !last || before {
            1
        } else {
            0
        };
        let end: u64 = stamp as u64 + bump;
        if end < n_vocab as u64 {
            close_range(&mut mask, ts, end as usize);
        } else {
            close_range(&mut mask, ts, n_vocab);
        }
    }
    if tokens.len() == sample_begin {
        close_range(&mut mask, 0, ts);
        if let Some(m) = max_initial_timestamp_index {
            close_range(&mut mask, ts + m + 1, n_vocab);
        }
    }
    mask
}

/// Applies the timestamp rules to what is suppressed already. Where the timestamps together are
/// likelier than any text token, text is suppressed altogether.
///
/// `timestamps_win` says so; it is decided on the logits that carry the suppression so far and
/// not the mask of these rules.
pub fn apply_timestamp_rules(
    suppressed: &Vec<bool>,
    tokens: &[u32],
    sample_begin: usize,
    layout: &StampLayout,
    max_initial_timestamp_index: Option<usize>,
    timestamps_win: bool,
) -> (r: Vec<bool>)
    requires
        tokens@.len() == sample_begin ==> layout.ts_begin <= suppressed@.len(),
        ends_in_stamp(sampled(tokens@, sample_begin as int), layout.ts_begin as int)
            && !stamp_before_last(sampled(tokens@, sample_begin as int), layout.ts_begin as int)
            ==> layout.eot <= suppressed@.len(),
        max_initial_timestamp_index matches Some(m) ==> tokens@.len() == sample_begin
            ==> layout.ts_begin + m < usize::MAX,
    ensures
        r@.len() == suppressed@.len(),
        forall|i: int|
            0 <= i < r@.len() ==> #[trigger] r@[i] == (suppressed@[i] || closed(
                tokens@,
                sample_begin as int,
                *layout,
                max_initial_timestamp_index,
                i,
            ) || (timestamps_win && i < layout.ts_begin < suppressed@.len())),
{
    let n_vocab: usize = suppressed.len();
    let mut mask = timestamp_mask(
        tokens,
        sample_begin,
        layout,
        max_initial_timestamp_index,
        n_vocab,
    );
    if timestamps_win && layout.ts_begin > 0 && layout.ts_begin < n_vocab {
        close_range(&mut mask, 0, layout.ts_begin);
    }
    apply_suppress_tokens(suppressed, &mask)
}

impl Tokenizer {
    /// Where the ids of special tokens lie that the timestamp rules speak of.
    pub fn stamp_layout(&self) -> (r: StampLayout)
        requires
            self.encoding.wf(),
        ensures
            r == stamp_layout_of(*self),
    {
        StampLayout {
            ts_begin: self.timestamp_begin() as usize,
            eot: self.eot() as usize,
            no_timestamps: self.no_timestamps() as usize,
        }
    }
}

/// Where the ids of special tokens lie that the timestamp rules speak of.
pub open spec fn stamp_layout_of(t: Tokenizer) -> StampLayout {
    StampLayout {
        ts_begin: t.encoding.special_id(timestamp_place(t.encoding.width as nat, 0)) as usize,
        eot: t.encoding.eot_token as usize,
        no_timestamps: t.encoding.special_id(
            no_timestamps_place(t.encoding.width as nat),
        ) as usize,
    }
}

/// Whether the ids lie as special tokens do: the end of the text, then the token that turns
/// timestamps off, then the timestamps.
pub open spec fn layout_in_order(layout: StampLayout) -> bool {
    layout.eot < layout.no_timestamps < layout.ts_begin
}

/// The ids of a tokenizer lie in order.
pub proof fn tokenizers_lie_in_order(t: Tokenizer)
    requires
        t.encoding.wf(),
    ensures
        layout_in_order(stamp_layout_of(t)),
{
}

/// The token that turns timestamps off is closed at every step.
pub proof fn no_timestamps_is_always_closed(
    tokens: Seq<u32>,
    sample_begin: int,
    layout: StampLayout,
    max_index: Option<usize>,
)
    ensures
        closed(tokens, sample_begin, layout, max_index, layout.no_timestamps as int),
{
}

/// At the first position exactly the timestamps are open, up to and with the last that is
/// allowed.
pub proof fn first_token_is_a_timestamp(
    tokens: Seq<u32>,
    layout: StampLayout,
    max_index: Option<usize>,
    i: int,
)
    requires
        layout_in_order(layout),
    ensures
        !closed(tokens, tokens.len() as int, layout, max_index, i) <==> layout.ts_begin <= i && (
        max_index matches Some(m) ==> i <= layout.ts_begin + m),
{
}

/// After two timestamps every timestamp is closed, and of the other tokens only the one that turns
/// timestamps off.
pub proof fn two_timestamps_close_the_timestamps(
    tokens: Seq<u32>,
    sample_begin: int,
    layout: StampLayout,
    max_index: Option<usize>,
    i: int,
)
    requires
        layout_in_order(layout),
        0 <= sample_begin,
        tokens.len() >= sample_begin + 2,
        tokens[tokens.len() - 1] >= layout.ts_begin,
        tokens[tokens.len() - 2] >= layout.ts_begin,
    ensures
        closed(tokens, sample_begin, layout, max_index, i) <==> i >= layout.ts_begin || i
            == layout.no_timestamps,
{
}

/// After text and a timestamp all text is closed, and the end of the text stays open.
pub proof fn lone_timestamp_closes_the_text(
    tokens: Seq<u32>,
    sample_begin: int,
    layout: StampLayout,
    max_index: Option<usize>,
    i: int,
)
    requires
        layout_in_order(layout),
        0 <= sample_begin,
        tokens.len() >= sample_begin + 2,
        tokens[tokens.len() - 1] >= layout.ts_begin,
        tokens[tokens.len() - 2] < layout.ts_begin,
    ensures
        i < layout.eot ==> closed(tokens, sample_begin, layout, max_index, i),
        !closed(tokens, sample_begin, layout, max_index, layout.eot as int),
{
}

/// The last timestamp of a list is one of it, and none behind it is a timestamp after that of 0 s.
pub proof fn lemma_last_stamp(seq: Seq<u32>, ts_begin: int)
    ensures
        match last_stamp(seq, ts_begin) {
            Some(t) => t > ts_begin && exists|k: int|
                0 <= k < seq.len() && #[trigger] seq[k] == t && forall|j: int|
                    k < j < seq.len() ==> #[trigger] seq[j] <= ts_begin,
            None => forall|j: int| 0 <= j < seq.len() ==> #[trigger] seq[j] <= ts_begin,
        },
    decreases seq.len(),
{
    if seq.len() > 0 && seq.last() <= ts_begin {
        lemma_last_stamp(seq.drop_last(), ts_begin);
        let before = seq.drop_last();
        if let Some(t) = last_stamp(before, ts_begin) {
            let k = choose|k: int|
                0 <= k < before.len() && #[trigger] before[k] == t && forall|j: int|
                    k < j < before.len() ==> #[trigger] before[j] <= ts_begin;
            assert(seq[k] == t);
            assert forall|j: int| k < j < seq.len() implies #[trigger] seq[j] <= ts_begin by {
                if j < before.len() {
                    assert(before[j] <= ts_begin);
                }
            }
        } else {
            assert forall|j: int| 0 <= j < seq.len() implies #[trigger] seq[j] <= ts_begin by {
                if j < before.len() {
                    assert(before[j] <= ts_begin);
                }
            }
        }
    } else if seq.len() > 0 {
        assert(seq[seq.len() - 1] == seq.last());
    }
}

/// Timestamps do not go back: no timestamp before the last one is open; and where the last token
/// is text, neither is the last timestamp itself, but all after it are.
pub proof fn timestamps_do_not_go_back(
    tokens: Seq<u32>,
    sample_begin: int,
    layout: StampLayout,
    max_index: Option<usize>,
    t: int,
    i: int,
)
    requires
        layout_in_order(layout),
        0 <= sample_begin < tokens.len(),
        last_stamp(sampled(tokens, sample_begin), layout.ts_begin as int) == Some(t),
    ensures
        layout.ts_begin <= i < t ==> closed(tokens, sample_begin, layout, max_index, i),
        tokens[tokens.len() - 1] < layout.ts_begin ==> (closed(
            tokens,
            sample_begin,
            layout,
            max_index,
            i,
        ) <==> i == layout.no_timestamps || layout.ts_begin <= i <= t),
{
    assert(sampled(tokens, sample_begin).last() == tokens[tokens.len() - 1]);
}

/// Whether every sampled token was open when it was sampled.
#[verifier::opaque]
pub open spec fn obeys_rules(
    tokens: Seq<u32>,
    sample_begin: int,
    layout: StampLayout,
    max_index: Option<usize>,
) -> bool {
    forall|k: int|
        sample_begin <= k < tokens.len() ==> !closed(
            tokens.take(k),
            sample_begin,
            layout,
            max_index,
            (#[trigger] tokens[k]) as int,
        )
}

/// A sampled timestamp is not before the last one before it.
proof fn lemma_sampled_stamp(
    tokens: Seq<u32>,
    sample_begin: int,
    layout: StampLayout,
    max_index: Option<usize>,
    j: int,
)
    requires
        0 <= sample_begin <= j < tokens.len(),
        obeys_rules(tokens, sample_begin, layout, max_index),
        tokens[j] >= layout.ts_begin,
    ensures
        last_stamp(tokens.subrange(sample_begin, j), layout.ts_begin as int) matches Some(t)
            ==> tokens[j] >= t,
{
    reveal(obeys_rules);
    let before = tokens.take(j);
    assert(!closed(before, sample_begin, layout, max_index, tokens[j] as int));
    assert(sampled(before, sample_begin) =~= tokens.subrange(sample_begin, j));
}

/// A list with a timestamp after that of 0 s has a last one, which stands there or behind it.
proof fn lemma_last_stamp_from(seq: Seq<u32>, ts_begin: int, i: int) -> (k: int)
    requires
        0 <= i < seq.len(),
        seq[i] > ts_begin,
    ensures
        i <= k < seq.len(),
        seq[k] > ts_begin,
        last_stamp(seq, ts_begin) == Some(seq[k] as int),
    decreases seq.len(),
{
    if seq.last() > ts_begin {
        seq.len() - 1
    } else {
        lemma_last_stamp_from(seq.drop_last(), ts_begin, i)
    }
}

/// The timestamps of tokens that obey the rules do not go back, from the first to the last.
pub proof fn timestamps_rise(
    tokens: Seq<u32>,
    sample_begin: int,
    layout: StampLayout,
    max_index: Option<usize>,
    i: int,
    j: int,
)
    requires
        0 <= sample_begin <= i < j < tokens.len(),
        obeys_rules(tokens, sample_begin, layout, max_index),
        tokens[i] >= layout.ts_begin,
        tokens[j] >= layout.ts_begin,
    ensures
        tokens[i] <= tokens[j],
    decreases j,
{
    let ts = layout.ts_begin as int;
    if tokens[i] > ts {
        let seq = tokens.subrange(sample_begin, j);
        lemma_sampled_stamp(tokens, sample_begin, layout, max_index, j);
        let k = lemma_last_stamp_from(seq, ts, i - sample_begin);
        assert(seq[k] == tokens[sample_begin + k]);
        if sample_begin + k > i {
            timestamps_rise(tokens, sample_begin, layout, max_index, i, sample_begin + k);
        }
    }
}

/// As long as timestamps are not likelier than text, the rules never close every token: the end of
/// the text stays open behind the first position, and the timestamp of 0 s at it.
pub proof fn some_token_stays_open(
    tokens: Seq<u32>,
    sample_begin: int,
    layout: StampLayout,
    max_index: Option<usize>,
)
    requires
        layout_in_order(layout),
    ensures
        tokens.len() == sample_begin ==> !closed(
            tokens,
            sample_begin,
            layout,
            max_index,
            layout.ts_begin as int,
        ),
        tokens.len() > sample_begin >= 0 ==> !closed(
            tokens,
            sample_begin,
            layout,
            max_index,
            layout.eot as int,
        ),
{
    lemma_last_stamp(sampled(tokens, sample_begin), layout.ts_begin as int);
}

// Choosing a token.

/// Whether token `i` is the one to take: it is not suppressed, no token that is not suppressed has
/// a larger key, and none before it has the same.
pub open spec fn is_greedy(keys: Seq<u32>, suppressed: Seq<bool>, i: int) -> bool {
    &&& 0 <= i < keys.len()
    &&& !suppressed[i]
    &&& forall|j: int|
        0 <= j < keys.len() && !suppressed[j] ==> {
            ||| #[trigger] keys[j] < keys[i]
            ||| keys[j] == keys[i] && i <= j
        }
}

/// The token with the largest key among those that are not suppressed, the first of them. A key
/// stands for a logit: larger for a larger one. None where all are suppressed.
pub fn greedy_token(keys: &[u32], suppressed: &[bool]) -> (r: Option<usize>)
    requires
        keys@.len() == suppressed@.len(),
    ensures
        match r {
            Some(i) => is_greedy(keys@, suppressed@, i as int),
            None => forall|i: int| 0 <= i < suppressed@.len() ==> #[trigger] suppressed@[i],
        },
{
    let mut best: Option<usize> = None;
    let mut i: usize = 0;
    while i < keys.len()
        invariant
            i <= keys@.len() == suppressed@.len(),
            match best {
                Some(b) => {
                    &&& b < i
                    &&& !suppressed@[b as int]
                    &&& forall|j: int|
                        0 <= j < i && !suppressed@[j] ==> {
                            ||| #[trigger] keys@[j] < keys@[b as int]
                            ||| keys@[j] == keys@[b as int] && b <= j
                        }
                },
                None => forall|j: int| 0 <= j < i ==> #[trigger] suppressed@[j],
            },
        decreases keys@.len() - i,
    {
        if !suppressed[i] {
            let better = match best {
                Some(b) => keys[i] > keys[b],
                None => true,
            };
            if better {
                best = Some(i);
            }
        }
        i += 1;
    }
    best
}

/// There is only one token to take.
pub proof fn greedy_choice_is_unique(keys: Seq<u32>, suppressed: Seq<bool>, i: int, j: int)
    requires
        is_greedy(keys, suppressed, i),
        is_greedy(keys, suppressed, j),
    ensures
        i == j,
{
    assert(keys[i] <= keys[j] && keys[j] <= keys[i]);
}

// The initial tokens.

/// The tokens that decoding starts from: the start sequence, and before it, where there is a
/// prompt, its last tokens behind the start of the previous text.
pub open spec fn initial_tokens_of(
    t: Tokenizer,
    without_timestamps: bool,
    prompt: Option<Seq<u32>>,
    n_text_ctx: nat,
) -> Seq<u32> {
    let width = t.encoding.width as nat;
    let start = if without_timestamps {
        t.sot_sequence@.push(t.encoding.special_id(no_timestamps_place(width)))
    } else {
        t.sot_sequence@
    };
    let room = n_text_ctx / 2 - 1;
    match prompt {
        Some(p) => if p.len() == 0 {
            start
        } else {
            seq![t.encoding.special_id(start_of_prev_place(width))] + p.skip(
                if p.len() > room {
                    p.len() - room
                } else {
                    0
                },
            ) + start
        },
        None => start,
    }
}

/// The tokens that decoding starts from.
pub fn initial_tokens(
    tokenizer: &Tokenizer,
    without_timestamps: bool,
    prompt: Option<&Vec<u32>>,
    n_text_ctx: usize,
) -> (r: Vec<u32>)
    requires
        tokenizer.encoding.wf(),
        prompt matches Some(p) ==> p@.len() > 0 ==> n_text_ctx >= 2,
    ensures
        r@ == initial_tokens_of(
            *tokenizer,
            without_timestamps,
            match prompt {
                Some(p) => Some(p@),
                None => None,
            },
            n_text_ctx as nat,
        ),
{
    let mut start = if without_timestamps {
        tokenizer.sot_sequence_including_notimestamps()
    } else {
        slice_to_vec(&tokenizer.sot_sequence)
    };
    match prompt {
        Some(p) => {
            if p.len() == 0 {
                return start;
            }
            let room: usize = n_text_ctx / 2 - 1;
            let from: usize = if p.len() > room {
                p.len() - room
            } else {
                0
            };
            let mut full: Vec<u32> = Vec::new();
            full.push(tokenizer.start_of_prev());
            full.extend_from_slice(&p[from..p.len()]);
            assert(p@.subrange(from as int, p@.len() as int) =~= p@.skip(from as int));
            full.append(&mut start);
            assert(full@ =~= initial_tokens_of(
                *tokenizer,
                without_timestamps,
                Some(p@),
                n_text_ctx as nat,
            ));
            full
        },
        None => start,
    }
}

/// The position of the first `sot` in `tokens`, or 0 where there is none.
pub fn sot_index(tokens: &[u32], sot: u32) -> (r: usize)
    ensures
        tokens@.contains(sot) ==> r < tokens@.len() && tokens@[r as int] == sot && forall|j: int|
            0 <= j < r ==> #[trigger] tokens@[j] != sot,
        !tokens@.contains(sot) ==> r == 0,
{
    let mut i: usize = 0;
    while i < tokens.len()
        invariant
            i <= tokens@.len(),
            forall|j: int| 0 <= j < i ==> #[trigger] tokens@[j] != sot,
        decreases tokens@.len() - i,
    {
        if tokens[i] == sot {
            assert(tokens@.contains(sot));
            return i;
        }
        i += 1;
    }
    0
}

// The loop.

/// The tokens of a window so far, and when to stop.
pub struct DecodeSession {
    pub tokens: Vec<u32>,
    /// The number of tokens that decoding started from.
    pub sample_begin: usize,
    /// The largest number of tokens to sample.
    pub sample_len: usize,
    pub n_text_ctx: usize,
    pub eot: u32,
}

/// Whether another token is sampled: not once enough were sampled; and after the first one, not
/// once the text context is full or the text has ended.
pub open spec fn goes_on(
    tokens: Seq<u32>,
    sample_begin: int,
    sample_len: int,
    n_text_ctx: int,
    eot: u32,
) -> bool {
    let steps = tokens.len() - sample_begin;
    &&& steps < sample_len
    &&& steps == 0 || (tokens.len() <= n_text_ctx && tokens.last() != eot)
}

/// `list` up to the first `stop`, without it.
pub open spec fn up_to(list: Seq<u32>, stop: u32) -> Seq<u32>
    decreases list.len(),
{
    if list.len() == 0 || list[0] == stop {
        seq![]
    } else {
        seq![list[0]] + up_to(list.drop_first(), stop)
    }
}

impl DecodeSession {
    /// Whether another token is to be sampled.
    pub open spec fn wants_more(self) -> bool {
        goes_on(
            self.tokens@,
            self.sample_begin as int,
            self.sample_len as int,
            self.n_text_ctx as int,
            self.eot,
        )
    }

    /// Every token was sampled while decoding went on.
    pub open spec fn wf(self) -> bool {
        &&& self.sample_begin <= self.tokens@.len()
        &&& forall|k: int|
            self.sample_begin <= k < self.tokens@.len() ==> goes_on(
                #[trigger] self.tokens@.take(k),
                self.sample_begin as int,
                self.sample_len as int,
                self.n_text_ctx as int,
                self.eot,
            )
    }

    /// The tokens that were sampled.
    pub open spec fn sampled_tokens(self) -> Seq<u32> {
        self.tokens@.skip(self.sample_begin as int)
    }

    /// Starts from `initial`. At most `sample_len` tokens are sampled, by default half of the
    /// text context.
    pub fn new(initial: Vec<u32>, sample_len: Option<usize>, n_text_ctx: usize, eot: u32) -> (r:
        Self)
        ensures
            r.wf(),
            r.tokens@ == initial@,
            r.sample_begin == initial@.len(),
            r.sample_len == (match sample_len {
                Some(n) => n,
                None => (n_text_ctx / 2) as usize,
            }),
            r.n_text_ctx == n_text_ctx,
            r.eot == eot,
            r.wants_more() == (r.sample_len > 0),
    {
        let sample_begin: usize = initial.len();
        DecodeSession {
            tokens: initial,
            sample_begin,
            sample_len: match sample_len {
                Some(n) => n,
                None => n_text_ctx / 2,
            },
            n_text_ctx,
            eot,
        }
    }

    /// Whether decoding is over.
    pub fn is_done(&self) -> (r: bool)
        requires
            self.wf(),
        ensures
            r == !self.wants_more(),
    {
        let steps: usize = self.tokens.len() - self.sample_begin;
        if steps >= self.sample_len {
            return true;
        }
        steps > 0 && (self.tokens.len() > self.n_text_ctx || self.tokens[self.tokens.len() - 1]
            == self.eot)
    }

    /// From which token on the decoder is fed: all tokens at first, then the last one, as the
    /// cache holds the others.
    pub fn input_start(&self) -> (r: usize)
        requires
            self.wf(),
        ensures
            r == (if self.tokens@.len() == self.sample_begin {
                0
            } else {
                self.tokens@.len() - 1
            }),
    {
        if self.tokens.len() == self.sample_begin {
            0
        } else {
            self.tokens.len() - 1
        }
    }

    /// Adds a sampled token.
    pub fn push(&mut self, next: u32)
        requires
            old(self).wf(),
            old(self).wants_more(),
        ensures
            final(self).wf(),
            final(self).tokens@ == old(self).tokens@.push(next),
            final(self).sample_begin == old(self).sample_begin,
            final(self).sample_len == old(self).sample_len,
            final(self).n_text_ctx == old(self).n_text_ctx,
            final(self).eot == old(self).eot,
    {
        let ghost before = self.tokens@;
        self.tokens.push(next);
        assert forall|k: int| self.sample_begin <= k < self.tokens@.len() implies goes_on(
            #[trigger] self.tokens@.take(k),
            self.sample_begin as int,
            self.sample_len as int,
            self.n_text_ctx as int,
            self.eot,
        ) by {
            assert(self.tokens@.take(k) =~= before.take(k));
            if k == before.len() {
                assert(before.take(k) =~= before);
            }
        }
    }

    /// The sampled tokens up to the end of the text.
    pub fn result_tokens(&self) -> (r: Vec<u32>)
        requires
            self.wf(),
        ensures
            r@ == up_to(self.sampled_tokens(), self.eot),
    {
        let ghost all = self.sampled_tokens();
        let mut r: Vec<u32> = Vec::new();
        let mut i: usize = self.sample_begin;
        assert(all.skip(0) =~= all);
        assert(r@ + up_to(all, self.eot) =~= up_to(all, self.eot));
        while i < self.tokens.len() && self.tokens[i] != self.eot
            invariant
                self.sample_begin <= i <= self.tokens@.len(),
                all == self.sampled_tokens(),
                r@ + up_to(all.skip(i - self.sample_begin), self.eot) == up_to(all, self.eot),
            decreases self.tokens@.len() - i,
        {
            let ghost rest = all.skip(i - self.sample_begin);
            assert(rest[0] == self.tokens@[i as int]);
            assert(rest.drop_first() =~= all.skip(i + 1 - self.sample_begin));
            let ghost before = r@;
            r.push(self.tokens[i]);
            assert(before + (seq![rest[0]] + up_to(rest.drop_first(), self.eot)) =~= r@ + up_to(
                rest.drop_first(),
                self.eot,
            ));
            i += 1;
        }
        assert(up_to(all.skip(i - self.sample_begin), self.eot) =~= Seq::<u32>::empty());
        assert(r@ + Seq::<u32>::empty() =~= r@);
        r
    }
}

/// What `up_to` leaves holds no `stop`, and is the list itself where that holds none.
pub proof fn up_to_holds_no_stop(list: Seq<u32>, stop: u32)
    ensures
        !up_to(list, stop).contains(stop),
        up_to(list, stop).is_prefix_of(list),
        !list.contains(stop) ==> up_to(list, stop) == list,
        list.contains(stop) ==> up_to(list, stop).len() < list.len() && list[up_to(
            list,
            stop,
        ).len() as int] == stop,
    decreases list.len(),
{
    if list.len() > 0 && list[0] != stop {
        let rest = list.drop_first();
        up_to_holds_no_stop(rest, stop);
        let kept = up_to(list, stop);
        assert(kept.drop_first() =~= up_to(rest, stop));
        assert forall|i: int| 0 <= i < kept.len() implies kept[i] == list[i] && kept[i] != stop by {
            if i > 0 {
                assert(kept[i] == up_to(rest, stop)[i - 1]);
                assert(list[i] == rest[i - 1]);
            }
        }
        if list.contains(stop) {
            let j = choose|j: int| 0 <= j < list.len() && list[j] == stop;
            assert(rest[j - 1] == stop);
            assert(rest.contains(stop));
        } else {
            assert forall|j: int| 0 <= j < rest.len() implies rest[j] != stop by {
                assert(rest[j] == list[j + 1]);
            }
            assert(!rest.contains(stop));
            assert(kept =~= list);
        }
        assert(kept =~= list.take(kept.len() as int));
    } else {
        assert(up_to(list, stop) =~= list.take(0));
        if list.len() > 0 {
            assert(list.contains(list[0]));
        }
    }
}

/// A session stays within its limits: at most `sample_len` tokens are sampled, in the result too;
/// and the text context is passed by one token at most, unless the first sampled token does so.
pub proof fn sessions_stay_within_limits(s: DecodeSession)
    requires
        s.wf(),
    ensures
        s.sampled_tokens().len() <= s.sample_len,
        up_to(s.sampled_tokens(), s.eot).len() <= s.sample_len,
        s.sampled_tokens().len() <= 1 || s.tokens@.len() <= s.n_text_ctx + 1,
{
    let n = s.tokens@.len() as int;
    up_to_holds_no_stop(s.sampled_tokens(), s.eot);
    if n > s.sample_begin {
        let before = s.tokens@.take(n - 1);
        assert(goes_on(
            before,
            s.sample_begin as int,
            s.sample_len as int,
            s.n_text_ctx as int,
            s.eot,
        ));
    }
}

/// The end of the text can only be the last sampled token, so that the result holds all sampled
/// tokens but that one.
pub proof fn results_drop_the_end_only(s: DecodeSession)
    requires
        s.wf(),
    ensures
        ({
            let all = s.sampled_tokens();
            up_to(all, s.eot) == (if all.len() > 0 && all.last() == s.eot {
                all.drop_last()
            } else {
                all
            })
        }),
{
    let all = s.sampled_tokens();
    let b = s.sample_begin as int;
    assert forall|i: int| 0 <= i < all.len() - 1 implies #[trigger] all[i] != s.eot by {
        let t = s.tokens@.take(b + i + 1);
        assert(goes_on(t, b, s.sample_len as int, s.n_text_ctx as int, s.eot));
        assert(t.last() == s.tokens@[b + i]);
    }
    up_to_holds_no_stop(all, s.eot);
    let kept = up_to(all, s.eot);
    if all.len() > 0 && all.last() == s.eot {
        assert(all.contains(all[all.len() - 1]));
        assert(kept =~= all.drop_last());
    } else {
        assert(!all.contains(s.eot));
    }
}

// What a window is decoded with.

/// Which tokens a window may sample: the masks that are applied at each step, and how.
pub struct TokenFilters {
    /// The mask for the first sampled token, where blanks are not allowed there.
    pub blank: Option<Vec<bool>>,
    /// The mask for every token.
    pub suppress: Vec<bool>,
    /// Whether the timestamp rules are applied.
    pub timestamps: bool,
    pub layout: StampLayout,
    /// The last timestamp that is allowed as the first one.
    pub max_index: Option<usize>,
}

impl TokenFilters {
    /// The masks are of one length, and the last timestamp that is allowed can be counted.
    pub open spec fn wf(self) -> bool {
        &&& self.blank matches Some(b) ==> b@.len() == self.suppress@.len()
        &&& self.max_index matches Some(m) ==> self.layout.ts_begin + m < usize::MAX
    }

    /// Whether token `i` is suppressed as a blank or at every position.
    pub open spec fn filtered(self, tokens_len: nat, sample_begin: nat, i: int) -> bool {
        ||| self.suppress@[i]
        ||| self.blank matches Some(b) && tokens_len == sample_begin && b@[i]
    }

    /// Whether token `i` is suppressed after `tokens`.
    pub open spec fn masked(
        self,
        tokens: Seq<u32>,
        sample_begin: nat,
        timestamps_win: bool,
        i: int,
    ) -> bool {
        ||| self.filtered(tokens.len(), sample_begin, i)
        ||| self.timestamps && closed(
            tokens,
            sample_begin as int,
            self.layout,
            self.max_index,
            i,
        )
        ||| self.timestamps && timestamps_win && i < self.layout.ts_begin < self.suppress@.len()
    }

    /// Whether the vocabulary reaches as far as the timestamp rules close tokens.
    pub open spec fn fits(self, tokens: Seq<u32>, sample_begin: int) -> bool {
        let seq = sampled(tokens, sample_begin);
        let ts = self.layout.ts_begin as int;
        self.timestamps ==> {
            &&& tokens.len() == sample_begin ==> self.layout.ts_begin <= self.suppress@.len()
            &&& ends_in_stamp(seq, ts) && !stamp_before_last(seq, ts) ==> self.layout.eot
                <= self.suppress@.len()
        }
    }

    /// The filters of a model with `n_vocab` tokens and `n_audio_ctx` positions in a window.
    pub fn new(
        tokenizer: &Tokenizer,
        options: &DecodingOptions,
        n_vocab: usize,
        n_audio_ctx: usize,
    ) -> (r: Self)
        requires
            tokenizer.encoding.wf(),
            options.max_initial_index_of(n_audio_ctx as nat) matches Some(m)
                ==> stamp_layout_of(*tokenizer).ts_begin + m < usize::MAX,
        ensures
            r.wf(),
            r.suppress@.len() == n_vocab,
            forall|i: int|
                0 <= i < n_vocab ==> (#[trigger] r.suppress@[i] <==> i <= u32::MAX && is_suppressed(
                    *tokenizer,
                    match options.suppress_tokens {
                        Some(s) => Some(s@),
                        None => None,
                    },
                    i as u32,
                )),
            r.blank is Some == options.suppress_blank,
            r.blank matches Some(b) ==> masks_ids(b@, blank_ids(*tokenizer)),
            r.timestamps == !options.without_timestamps,
            r.layout == stamp_layout_of(*tokenizer),
            r.max_index == (match options.max_initial_index_of(n_audio_ctx as nat) {
                Some(m) => Some(m as usize),
                None => None,
            }),
    {
        let list = match &options.suppress_tokens {
            Some(s) => Some(s.as_str()),
            None => None,
        };
        TokenFilters {
            blank: if options.suppress_blank {
                Some(blank_mask(tokenizer, n_vocab))
            } else {
                None
            },
            suppress: suppress_mask(tokenizer, list, n_vocab),
            timestamps: !options.without_timestamps,
            layout: tokenizer.stamp_layout(),
            max_index: options.max_initial_index(n_audio_ctx),
        }
    }

    /// What is suppressed before the timestamp rules.
    pub fn before_rules(&self, tokens_len: usize, sample_begin: usize) -> (r: Vec<bool>)
        requires
            self.wf(),
        ensures
            r@.len() == self.suppress@.len(),
            forall|i: int|
                0 <= i < r@.len() ==> #[trigger] r@[i] == self.filtered(
                    tokens_len as nat,
                    sample_begin as nat,
                    i,
                ),
    {
        let blank = match &self.blank {
            Some(b) => Some(b),
            None => None,
        };
        base_mask(tokens_len, sample_begin, blank, &self.suppress)
    }

    /// What is suppressed after `tokens`. `timestamps_win` says whether the timestamps together
    /// are likelier than any text token, among the tokens that are open before the timestamp
    /// rules.
    pub fn mask(&self, tokens: &[u32], sample_begin: usize, timestamps_win: bool) -> (r: Vec<bool>)
        requires
            self.wf(),
            self.fits(tokens@, sample_begin as int),
        ensures
            r@.len() == self.suppress@.len(),
            forall|i: int|
                0 <= i < r@.len() ==> #[trigger] r@[i] == self.masked(
                    tokens@,
                    sample_begin as nat,
                    timestamps_win,
                    i,
                ),
    {
        let base = self.before_rules(tokens.len(), sample_begin);
        if self.timestamps {
            apply_timestamp_rules(
                &base,
                tokens,
                sample_begin,
                &self.layout,
                self.max_index,
                timestamps_win,
            )
        } else {
            base
        }
    }
}

/// How many timestamps lie between 0 s and `micros` microseconds, to the nearest, for a model with
/// `n_audio_ctx` timestamps in a window of 30 s; no more than a machine can count.
pub open spec fn stamps_until(micros: nat, n_audio_ctx: nat) -> nat {
    let n = (micros * n_audio_ctx + 15_000_000) / 30_000_000;
    if n <= usize::MAX {
        n
    } else {
        usize::MAX as nat
    }
}

/// A later time is at a later timestamp, or at the same one; and the timestamps of a window reach
/// from 0 s to 30 s.
pub proof fn stamps_span_the_window(a: nat, b: nat, n_audio_ctx: nat)
    ensures
        a <= b ==> stamps_until(a, n_audio_ctx) <= stamps_until(b, n_audio_ctx),
        stamps_until(0, n_audio_ctx) == 0,
        n_audio_ctx <= usize::MAX ==> stamps_until(30_000_000, n_audio_ctx) == n_audio_ctx,
{
    if a <= b {
        assert(a * n_audio_ctx <= b * n_audio_ctx) by (nonlinear_arith)
            requires
                a <= b,
        ;
    }
    assert(0 * n_audio_ctx == 0) by (nonlinear_arith);
}

impl DecodingOptions {
    /// The last timestamp that is allowed as the first one, counted from 0 s, where there is such
    /// a limit.
    pub open spec fn max_initial_index_of(self, n_audio_ctx: nat) -> Option<nat> {
        if self.without_timestamps {
            None
        } else {
            match self.max_initial_timestamp {
                Some(t) => Some(stamps_until(t as nat, n_audio_ctx)),
                None => None,
            }
        }
    }

    /// The last timestamp that is allowed as the first one, counted from 0 s, where there is such
    /// a limit.
    pub fn max_initial_index(&self, n_audio_ctx: usize) -> (r: Option<usize>)
        ensures
            r == (match self.max_initial_index_of(n_audio_ctx as nat) {
                Some(m) => Some(m as usize),
                None => None,
            }),
    {
        if self.without_timestamps {
            return None;
        }
        match self.max_initial_timestamp {
            Some(t) => {
                assert(t as u128 * n_audio_ctx as u128 <= 0xffff_ffff_ffff_ffff
                    * 0xffff_ffff_ffff_ffff) by (nonlinear_arith)
                    requires
                        t <= 0xffff_ffff_ffff_ffff,
                        n_audio_ctx <= 0xffff_ffff_ffff_ffff,
                ;
                let product: u128 = t as u128 * n_audio_ctx as u128;
                assert(product == t as nat * n_audio_ctx as nat);
                let n: u128 = (product + 15_000_000) / 30_000_000;
                if n <= usize::MAX as u128 {
                    Some(n as usize)
                } else {
                    Some(usize::MAX)
                }
            },
            None => None,
        }
    }

    /// Starts a window.
    pub fn start(&self, tokenizer: &Tokenizer, n_text_ctx: usize) -> (r: DecodeSession)
        requires
            tokenizer.encoding.wf(),
            self.prompt matches Some(p) ==> p@.len() > 0 ==> n_text_ctx >= 2,
        ensures
            r.wf(),
            r.tokens@ == initial_tokens_of(
                *tokenizer,
                self.without_timestamps,
                match self.prompt {
                    Some(p) => Some(p@),
                    None => None,
                },
                n_text_ctx as nat,
            ),
            r.sample_begin == r.tokens@.len(),
            r.sample_len == (match self.sample_len {
                Some(n) => n,
                None => (n_text_ctx / 2) as usize,
            }),
            r.n_text_ctx == n_text_ctx,
            r.eot == tokenizer.encoding.eot_token,
            r.wants_more() == (r.sample_len > 0),
    {
        let prompt = match &self.prompt {
            Some(p) => Some(p),
            None => None,
        };
        let initial = initial_tokens(tokenizer, self.without_timestamps, prompt, n_text_ctx);
        DecodeSession::new(initial, self.sample_len, n_text_ctx, tokenizer.eot())
    }
}

/// A token that is taken greedily is one that the options and the timestamp rules allow.
pub proof fn greedy_tokens_are_allowed(
    f: TokenFilters,
    tokens: Seq<u32>,
    sample_begin: nat,
    timestamps_win: bool,
    keys: Seq<u32>,
    mask: Seq<bool>,
    i: int,
)
    requires
        mask.len() == keys.len(),
        forall|j: int|
            0 <= j < mask.len() ==> #[trigger] mask[j] == f.masked(
                tokens,
                sample_begin,
                timestamps_win,
                j,
            ),
        is_greedy(keys, mask, i),
    ensures
        !f.suppress@[i],
        tokens.len() == sample_begin ==> (f.blank matches Some(b) ==> !b@[i]),
        f.timestamps ==> !closed(tokens, sample_begin as int, f.layout, f.max_index, i),
{
}

// The result.

/// What decoding a window gave.
pub struct DecodingResult {
    pub language: String,
    pub tokens: Vec<u32>,
    pub text: String,
    /// The compression ratio of the text, as a quotient.
    pub compression_ratio: (usize, usize),
}

/// The text of a list of tokens, special tokens and white space at the ends left out.
pub open spec fn plain_text(t: Tokenizer, ids: Seq<u32>) -> Seq<char> {
    trimmed(
        text_of_ids(ids_below(ids, t.encoding.eot_token), t.encoding.vocab@),
        TrimSet::White,
    )
}

/// The text of a list of tokens, special tokens and white space at the ends left out.
pub fn decode_plain(tokenizer: &Tokenizer, ids: &[u32]) -> (r: String)
    ensures
        r@ == plain_text(*tokenizer, ids@),
{
    let text = tokenizer.decode(ids);
    let chars = chars_of(text.as_str());
    string_of(trim(&chars, TrimSet::White))
}

/// The compression ratio of a text of `raw` bytes that was compressed to `compressed` bytes, as a
/// quotient: 0 for the empty text, and 1 where there is nothing compressed.
pub open spec fn ratio_of(raw: nat, compressed: Option<nat>) -> (nat, nat) {
    if raw == 0 {
        (0, 1)
    } else {
        match compressed {
            Some(n) => if n > 0 {
                (raw, n)
            } else {
                (1, 1)
            },
            None => (1, 1),
        }
    }
}

/// The bytes that a zlib stream stands for: what `flate2::read::ZlibDecoder` reads from it to its
/// end, where it is such a stream.
pub uninterp spec fn zlib_expanded(stream: Seq<u8>) -> Option<Seq<u8>>;

/// `flate2::write::ZlibEncoder` at the default level, over all of `bytes`: `finish` after
/// `write_all`, into a vector, to which writing does not fail. A zlib stream comes out, which is
/// never empty, and stands for `bytes`. How long it is, is up to the zlib that is linked, so
/// nothing is said of that.
#[verifier::external_body]
fn zlib_compress(bytes: &[u8]) -> (r: Option<Vec<u8>>)
    ensures
        r is Some,
        r matches Some(out) ==> out@.len() > 0 && zlib_expanded(out@) == Some(bytes@),
{
    let mut encoder = flate2::write::ZlibEncoder::new(Vec::new(), flate2::Compression::default());
    let _ = std::io::Write::write_all(&mut encoder, bytes);
    encoder.finish().ok()
}

/// Whether `ratio` is the compression ratio of a text: the number of its bytes, over that of the
/// bytes of a zlib stream that stands for them; 0 for the empty text.
pub open spec fn is_ratio(text: Seq<char>, ratio: (usize, usize)) -> bool {
    let bytes = vstd::utf8::encode_utf8(text);
    if text.len() == 0 {
        ratio == (0usize, 1usize)
    } else {
        &&& ratio.0 == bytes.len()
        &&& ratio.1 > 0
        &&& exists|out: Seq<u8>| #[trigger]
            zlib_expanded(out) == Some(bytes) && ratio.1 == out.len()
    }
}

/// The compression ratio of a text of `raw` bytes, given the size that it was compressed to.
pub fn ratio_from(raw: usize, compressed: Option<usize>) -> (r: (usize, usize))
    ensures
        (r.0 as nat, r.1 as nat) == ratio_of(
            raw as nat,
            match compressed {
                Some(n) => Some(n as nat),
                None => None,
            },
        ),
{
    if raw == 0 {
        return (0, 1);
    }
    match compressed {
        Some(n) => {
            if n > 0 {
                (raw, n)
            } else {
                (1, 1)
            }
        },
        None => (1, 1),
    }
}

/// The compression ratio of a text, as the quotient of its bytes and the bytes that zlib
/// compresses them to. Text that repeats itself has a high ratio.
pub fn compression_ratio(text: &str) -> (r: (usize, usize))
    ensures
        is_ratio(text@, r),
{
    let bytes = text.as_bytes();
    let size = if bytes.len() == 0 {
        None
    } else {
        match zlib_compress(bytes) {
            Some(out) => {
                assert(zlib_expanded(out@) == Some(bytes@));
                Some(out.len())
            },
            None => None,
        }
    };
    ratio_from(bytes.len(), size)
}

/// The result of a window.
pub fn finish(session: &DecodeSession, tokenizer: &Tokenizer) -> (r: DecodingResult)
    requires
        session.wf(),
    ensures
        r.tokens@ == up_to(session.sampled_tokens(), session.eot),
        r.text@ == plain_text(*tokenizer, r.tokens@),
        r.language@ == (match tokenizer.language {
            Some(l) => l@,
            None => "en"@,
        }),
        is_ratio(r.text@, r.compression_ratio),
{
    let tokens = session.result_tokens();
    let text = decode_plain(tokenizer, &tokens);
    let language = match &tokenizer.language {
        Some(l) => l.clone(),
        None => "en".to_owned(),
    };
    let ratio = compression_ratio(text.as_str());
    DecodingResult { language, tokens, text, compression_ratio: ratio }
}

} // verus!
