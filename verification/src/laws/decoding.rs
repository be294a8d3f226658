//! Decoding one window: what may come next, what it starts from, and when it stops.

use vstd::prelude::*;

use crate::decoding::{
    blank_ids, closed, goes_on, initial_tokens_of, is_greedy, last_stamp, layout_in_order,
    lemma_last_stamp, sampled, stamps_until, StampLayout, TokenFilters,
};
use crate::encoding::ids_of_text;
use crate::special::{special_body, special_count};
use crate::tokenizer::Tokenizer;

verus! {

// The timestamp rules: which tokens are open, in each case that there is.

/// Whether the last sampled timestamp after that of 0 s stands at `k`.
pub open spec fn last_stamp_at(
    tokens: Seq<u32>,
    sample_begin: int,
    layout: StampLayout,
    k: int,
) -> bool {
    &&& 0 <= sample_begin <= k < tokens.len()
    &&& tokens[k] > layout.ts_begin
    &&& forall|j: int| k < j < tokens.len() ==> #[trigger] tokens[j] <= layout.ts_begin
}

/// Whether no timestamp after that of 0 s was sampled.
pub open spec fn no_stamp(tokens: Seq<u32>, sample_begin: int, layout: StampLayout) -> bool {
    forall|j: int| sample_begin <= j < tokens.len() ==> #[trigger] tokens[j] <= layout.ts_begin
}

/// The last timestamp that was sampled is the one that the rules go by.
proof fn lemma_last_stamp_at(tokens: Seq<u32>, sample_begin: int, layout: StampLayout, k: int)
    requires
        last_stamp_at(tokens, sample_begin, layout, k),
    ensures
        last_stamp(sampled(tokens, sample_begin), layout.ts_begin as int) == Some(tokens[k] as int),
{
    let seq = sampled(tokens, sample_begin);
    let ts = layout.ts_begin as int;
    lemma_last_stamp(seq, ts);
    assert(seq[k - sample_begin] == tokens[k]);
    if let Some(t) = last_stamp(seq, ts) {
        let m = choose|m: int|
            0 <= m < seq.len() && #[trigger] seq[m] == t && forall|j: int|
                m < j < seq.len() ==> #[trigger] seq[j] <= ts;
        assert(seq[m] == tokens[sample_begin + m]);
    }
}

/// Where none was sampled, the rules go by none.
proof fn lemma_no_stamp(tokens: Seq<u32>, sample_begin: int, layout: StampLayout)
    requires
        0 <= sample_begin <= tokens.len(),
        no_stamp(tokens, sample_begin, layout),
    ensures
        last_stamp(sampled(tokens, sample_begin), layout.ts_begin as int) is None,
{
    let seq = sampled(tokens, sample_begin);
    let ts = layout.ts_begin as int;
    lemma_last_stamp(seq, ts);
    if let Some(t) = last_stamp(seq, ts) {
        let m = choose|m: int|
            0 <= m < seq.len() && #[trigger] seq[m] == t && forall|j: int|
                m < j < seq.len() ==> #[trigger] seq[j] <= ts;
        assert(seq[m] == tokens[sample_begin + m]);
    }
}

/// After text and a timestamp a segment may start at any time from that timestamp on, or the text
/// may end: of the timestamps exactly those before the last sampled one are closed, and of the
/// other tokens the text and the token that turns timestamps off.
pub proof fn a_segment_may_start_at_any_later_time(
    tokens: Seq<u32>,
    sample_begin: int,
    layout: StampLayout,
    max_index: Option<usize>,
    k: int,
    i: int,
)
    requires
        layout_in_order(layout),
        tokens.len() >= sample_begin + 2,
        tokens[tokens.len() - 1] >= layout.ts_begin,
        tokens[tokens.len() - 2] < layout.ts_begin,
        last_stamp_at(tokens, sample_begin, layout, k),
    ensures
        i >= layout.ts_begin ==> (closed(tokens, sample_begin, layout, max_index, i) <==> i
            < tokens[k]),
        0 <= i < layout.ts_begin ==> (closed(tokens, sample_begin, layout, max_index, i) <==> i
            < layout.eot || i == layout.no_timestamps),
{
    lemma_last_stamp_at(tokens, sample_begin, layout, k);
    let seq = sampled(tokens, sample_begin);
    assert(seq.last() == tokens[tokens.len() - 1]);
    assert(seq[seq.len() - 2] == tokens[tokens.len() - 2]);
}

/// The same where the only timestamps so far are of 0 s: every timestamp is open.
pub proof fn a_segment_may_start_at_any_time(
    tokens: Seq<u32>,
    sample_begin: int,
    layout: StampLayout,
    max_index: Option<usize>,
    i: int,
)
    requires
        layout_in_order(layout),
        0 <= sample_begin,
        tokens.len() >= sample_begin + 2,
        tokens[tokens.len() - 1] >= layout.ts_begin,
        tokens[tokens.len() - 2] < layout.ts_begin,
        no_stamp(tokens, sample_begin, layout),
    ensures
        i >= layout.ts_begin ==> !closed(tokens, sample_begin, layout, max_index, i),
        0 <= i < layout.ts_begin ==> (closed(tokens, sample_begin, layout, max_index, i) <==> i
            < layout.eot || i == layout.no_timestamps),
{
    lemma_no_stamp(tokens, sample_begin, layout);
    let seq = sampled(tokens, sample_begin);
    assert(seq.last() == tokens[tokens.len() - 1]);
    assert(seq[seq.len() - 2] == tokens[tokens.len() - 2]);
}

/// After text every token may follow but the one that turns timestamps off and the timestamps up to
/// the last sampled one: the text may go on or end, and a segment may end at any later time.
pub proof fn a_segment_may_end_at_any_later_time(
    tokens: Seq<u32>,
    sample_begin: int,
    layout: StampLayout,
    max_index: Option<usize>,
    k: int,
    i: int,
)
    requires
        layout_in_order(layout),
        tokens.len() > sample_begin,
        tokens[tokens.len() - 1] < layout.ts_begin,
        last_stamp_at(tokens, sample_begin, layout, k),
    ensures
        closed(tokens, sample_begin, layout, max_index, i) <==> i == layout.no_timestamps || (
        layout.ts_begin <= i <= tokens[k]),
{
    lemma_last_stamp_at(tokens, sample_begin, layout, k);
    assert(sampled(tokens, sample_begin).last() == tokens[tokens.len() - 1]);
}

/// After text without a timestamp before it but that of 0 s, every token may follow but the one
/// that turns timestamps off.
pub proof fn text_alone_closes_nothing(
    tokens: Seq<u32>,
    sample_begin: int,
    layout: StampLayout,
    max_index: Option<usize>,
    i: int,
)
    requires
        layout_in_order(layout),
        0 <= sample_begin < tokens.len(),
        tokens[tokens.len() - 1] < layout.ts_begin,
        no_stamp(tokens, sample_begin, layout),
    ensures
        closed(tokens, sample_begin, layout, max_index, i) <==> i == layout.no_timestamps,
{
    lemma_no_stamp(tokens, sample_begin, layout);
    assert(sampled(tokens, sample_begin).last() == tokens[tokens.len() - 1]);
}

/// After the first timestamp text follows, or the end of it: every timestamp is closed, and of the
/// other tokens the one that turns timestamps off.
pub proof fn text_follows_the_first_timestamp(
    tokens: Seq<u32>,
    sample_begin: int,
    layout: StampLayout,
    max_index: Option<usize>,
    i: int,
)
    requires
        layout_in_order(layout),
        0 <= sample_begin,
        tokens.len() == sample_begin + 1,
        tokens[sample_begin] >= layout.ts_begin,
    ensures
        closed(tokens, sample_begin, layout, max_index, i) <==> i >= layout.ts_begin || i
            == layout.no_timestamps,
{
    assert(sampled(tokens, sample_begin).last() == tokens[sample_begin]);
}

/// The limit on the first timestamp holds of the first token alone.
pub proof fn later_tokens_know_no_first_limit(
    tokens: Seq<u32>,
    sample_begin: int,
    layout: StampLayout,
    a: Option<usize>,
    b: Option<usize>,
    i: int,
)
    requires
        tokens.len() > sample_begin,
    ensures
        closed(tokens, sample_begin, layout, a, i) == closed(tokens, sample_begin, layout, b, i),
{
}

/// What was sampled decides, and nothing before it: two windows with the same sampled tokens are
/// open for the same tokens.
pub proof fn rules_go_by_the_sampled_tokens(
    a: Seq<u32>,
    b: Seq<u32>,
    new: Seq<u32>,
    layout: StampLayout,
    max_index: Option<usize>,
    i: int,
)
    ensures
        closed(a + new, a.len() as int, layout, max_index, i) == closed(
            b + new,
            b.len() as int,
            layout,
            max_index,
            i,
        ),
{
    assert(sampled(a + new, a.len() as int) =~= new);
    assert(sampled(b + new, b.len() as int) =~= new);
}

// The filters together.

/// A token may be sampled if and only if nothing closes it: neither the list of suppressed tokens,
/// nor the blanks at the first position, nor, with timestamps, the timestamp rules, nor, where
/// timestamps are likelier than text, that it is no timestamp.
pub proof fn a_token_is_open_unless_something_closes_it(
    f: TokenFilters,
    tokens: Seq<u32>,
    sample_begin: nat,
    timestamps_win: bool,
    i: int,
)
    requires
        0 <= i < f.suppress@.len(),
    ensures
        f.suppress@[i] ==> f.masked(tokens, sample_begin, timestamps_win, i),
        tokens.len() == sample_begin ==> (f.blank matches Some(b) ==> b@[i] ==> f.masked(
            tokens,
            sample_begin,
            timestamps_win,
            i,
        )),
        f.timestamps && closed(tokens, sample_begin as int, f.layout, f.max_index, i) ==> f.masked(
            tokens,
            sample_begin,
            timestamps_win,
            i,
        ),
        f.timestamps && timestamps_win && f.layout.ts_begin < f.suppress@.len() && i
            < f.layout.ts_begin ==> f.masked(tokens, sample_begin, timestamps_win, i),
        !f.suppress@[i] && (tokens.len() == sample_begin ==> (f.blank matches Some(b) ==> !b@[i]))
            && (f.timestamps ==> !closed(tokens, sample_begin as int, f.layout, f.max_index, i) && (
        !timestamps_win || i >= f.layout.ts_begin)) ==> !f.masked(
            tokens,
            sample_begin,
            timestamps_win,
            i,
        ),
{
}

/// The blanks are the tokens of a space and the end of the text, and no others.
pub proof fn blanks_are_spaces_and_the_end(t: Tokenizer, id: u32)
    ensures
        blank_ids(t).contains(id) <==> id == t.encoding.eot_token || ids_of_text(
            " "@,
            t.encoding.encoder@,
        ).contains(id),
{
    let spaces = ids_of_text(" "@, t.encoding.encoder@);
    let all = blank_ids(t);
    assert(all[spaces.len() as int] == t.encoding.eot_token);
    if spaces.contains(id) {
        let k = choose|k: int| 0 <= k < spaces.len() && spaces[k] == id;
        assert(all[k] == id);
    }
    if all.contains(id) {
        let k = choose|k: int| 0 <= k < all.len() && all[k] == id;
        if k < spaces.len() {
            assert(spaces[k] == id);
        }
    }
}

/// The token that is taken is open, no open token has a larger key, and no open token before it has
/// as large a one; and there is such a token wherever one is open.
pub proof fn the_likeliest_open_token_is_taken(keys: Seq<u32>, suppressed: Seq<bool>, i: int, j: int)
    requires
        keys.len() == suppressed.len(),
        is_greedy(keys, suppressed, i),
        0 <= j < keys.len(),
        !suppressed[j],
    ensures
        0 <= i < keys.len(),
        !suppressed[i],
        keys[j] <= keys[i],
        j < i ==> keys[j] < keys[i],
{
}

/// Where a token is open, one is taken.
pub proof fn an_open_token_is_taken(keys: Seq<u32>, suppressed: Seq<bool>, n: int)
    requires
        keys.len() == suppressed.len(),
        0 <= n <= keys.len(),
    ensures
        (exists|j: int| 0 <= j < n && !(#[trigger] suppressed[j])) ==> exists|i: int| #[trigger]
            is_greedy(keys.take(n), suppressed.take(n), i),
    decreases n,
{
    if n > 0 {
        an_open_token_is_taken(keys, suppressed, n - 1);
        let (a, s) = (keys.take(n - 1), suppressed.take(n - 1));
        let (b, t) = (keys.take(n), suppressed.take(n));
        assert forall|j: int| 0 <= j < n - 1 implies #[trigger] b[j] == a[j] && t[j] == s[j] by {}
        if exists|j: int| 0 <= j < n - 1 && !(#[trigger] suppressed[j]) {
            let i = choose|i: int| #[trigger] is_greedy(a, s, i);
            if !suppressed[n - 1] && keys[n - 1] > keys[i] {
                assert forall|j: int| 0 <= j < n && !t[j] implies {
                    ||| #[trigger] b[j] < b[n - 1]
                    ||| b[j] == b[n - 1] && n - 1 <= j
                } by {
                    if j < n - 1 {
                        assert(a[j] <= a[i]);
                    }
                }
                assert(is_greedy(b, t, n - 1));
            } else {
                assert forall|j: int| 0 <= j < n && !t[j] implies {
                    ||| #[trigger] b[j] < b[i]
                    ||| b[j] == b[i] && i <= j
                } by {
                    if j < n - 1 {
                        assert(a[j] < a[i] || a[j] == a[i] && i <= j);
                    }
                }
                assert(is_greedy(b, t, i));
            }
        } else if !suppressed[n - 1] {
            assert forall|j: int| 0 <= j < n && !t[j] implies j == n - 1 by {
                if j < n - 1 {
                    assert(suppressed[j]);
                }
            }
            assert(is_greedy(b, t, n - 1));
        }
    }
}

// Where a window starts.

/// Without text before it, a window starts with the start sequence, and with the token that turns
/// timestamps off behind it where there are to be none.
pub proof fn windows_start_with_the_start_sequence(
    t: Tokenizer,
    without_timestamps: bool,
    n_text_ctx: nat,
    k: int,
)
    requires
        0 <= k < special_count(t.encoding.width as nat),
        special_body(t.encoding.width as nat, k) == "notimestamps"@,
        t.encoding.wf(),
    ensures
        initial_tokens_of(t, without_timestamps, None, n_text_ctx) == (if without_timestamps {
            t.sot_sequence@.push((t.encoding.eot_token + k) as u32)
        } else {
            t.sot_sequence@
        }),
        initial_tokens_of(t, without_timestamps, Some(Seq::empty()), n_text_ctx)
            == initial_tokens_of(t, without_timestamps, None, n_text_ctx),
{
    crate::special::bodies_are_distinct(
        t.encoding.width as nat,
        k,
        crate::special::no_timestamps_place(t.encoding.width as nat),
    );
}

/// The text before a window stands between the token that starts it and the start sequence: all of
/// it where it takes less than half of the text context, else its last tokens, as many as fit in
/// half of the context together with the token that starts them.
pub proof fn the_text_before_takes_half_the_context(
    t: Tokenizer,
    without_timestamps: bool,
    prompt: Seq<u32>,
    n_text_ctx: nat,
    k: int,
)
    requires
        prompt.len() > 0,
        n_text_ctx >= 2,
        t.encoding.wf(),
        0 <= k < special_count(t.encoding.width as nat),
        special_body(t.encoding.width as nat, k) == "startofprev"@,
    ensures
        ({
            let bare = initial_tokens_of(t, without_timestamps, None, n_text_ctx);
            let all = initial_tokens_of(t, without_timestamps, Some(prompt), n_text_ctx);
            let kept = all.len() - bare.len() - 1;
            // The token that starts it, the end of the prompt, and the start sequence.
            &&& 0 <= kept <= prompt.len()
            &&& all[0] == t.encoding.eot_token + k
            &&& all.subrange(1, 1 + kept) == prompt.subrange(
                prompt.len() - kept,
                prompt.len() as int,
            )
            &&& all.skip(1 + kept) == bare
            // As much of the prompt as half the context holds.
            &&& 2 * (1 + kept) <= n_text_ctx
            &&& kept == prompt.len() || 2 * (2 + kept) > n_text_ctx
        }),
{
    let bare = initial_tokens_of(t, without_timestamps, None, n_text_ctx);
    let all = initial_tokens_of(t, without_timestamps, Some(prompt), n_text_ctx);
    let kept = all.len() - bare.len() - 1;
    let width = t.encoding.width as nat;
    crate::special::bodies_are_distinct(width, k, crate::special::start_of_prev_place(width));
    assert(all.subrange(1, 1 + kept) =~= prompt.subrange(
        prompt.len() - kept,
        prompt.len() as int,
    ));
    assert(all.skip(1 + kept) =~= bare);
}

/// There is room for half a context of sampled tokens behind the text before and the start
/// sequence: together they pass the text context by no more than the start sequence.
pub proof fn half_the_context_is_left_to_sample(
    t: Tokenizer,
    without_timestamps: bool,
    prompt: Option<Seq<u32>>,
    n_text_ctx: nat,
)
    requires
        n_text_ctx >= 2,
    ensures
        initial_tokens_of(t, without_timestamps, prompt, n_text_ctx).len() + n_text_ctx / 2
            <= n_text_ctx + initial_tokens_of(t, without_timestamps, None, n_text_ctx).len(),
{
}

// When a window is over.

/// Another token is sampled if and only if fewer were sampled than may be, and, behind the first
/// one, the text has not ended and the tokens do not pass the text context.
pub proof fn sampling_goes_on_until_a_limit(
    start: Seq<u32>,
    new: Seq<u32>,
    sample_len: int,
    n_text_ctx: int,
    eot: u32,
)
    ensures
        new.len() >= sample_len ==> !goes_on(
            start + new,
            start.len() as int,
            sample_len,
            n_text_ctx,
            eot,
        ),
        new.len() == 0 < sample_len ==> goes_on(
            start + new,
            start.len() as int,
            sample_len,
            n_text_ctx,
            eot,
        ),
        new.len() > 0 && new.last() == eot ==> !goes_on(
            start + new,
            start.len() as int,
            sample_len,
            n_text_ctx,
            eot,
        ),
        new.len() > 0 && start.len() + new.len() > n_text_ctx ==> !goes_on(
            start + new,
            start.len() as int,
            sample_len,
            n_text_ctx,
            eot,
        ),
        0 < new.len() < sample_len && new.last() != eot && start.len() + new.len() <= n_text_ctx
            ==> goes_on(start + new, start.len() as int, sample_len, n_text_ctx, eot),
{
    if new.len() > 0 {
        assert((start + new).last() == new.last());
    }
}

/// The timestamp of a time is the one nearest to it.
pub proof fn the_nearest_timestamp_is_meant(micros: nat, n_audio_ctx: nat, k: nat)
    requires
        stamps_until(micros, n_audio_ctx) < usize::MAX,
    ensures
        ({
            let at = stamps_until(micros, n_audio_ctx) * 30_000_000 - micros * n_audio_ctx;
            let other = k * 30_000_000 - micros * n_audio_ctx;
            &&& -15_000_000 < at <= 15_000_000
            &&& k != stamps_until(micros, n_audio_ctx) ==> (other >= 15_000_000 || other
                <= -15_000_000)
        }),
{
}

} // verus!
