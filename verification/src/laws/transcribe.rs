//! Transcribing: segments and their times, the text of the transcript, and retries.

use vstd::prelude::*;

use crate::decoding::plain_text;
use crate::laws::encoding::{speaks_whole_characters, spoken, the_text_of_more_ids_goes_on};
use crate::laws::text::trimmed_parts_stand_in_the_trimmed_text;
use crate::numbers::{decimal, padded_decimal};
use crate::text::{trimmed, TrimSet};
use crate::tokenizer::{ids_below, Tokenizer};
use crate::transcribe::{
    all_cuts, capitalized, cut_segments, final_stamp, hours_text, is_best, kept, lemma_pair_cuts,
    needs_fallback, next_seek, pair_cuts, timed_segment, timestamp_text, tokens_of,
    window_segments, SegmentModel, WindowModel,
};

verus! {

// Retries.

/// Of a window that is no silence, each fault alone asks for another attempt, whatever is said of
/// the other; without a fault there is none, and of silence there is none either.
pub proof fn each_fault_asks_for_another_attempt(
    repetitive: Option<bool>,
    unlikely: Option<bool>,
    no_speech: Option<bool>,
)
    ensures
        no_speech != Some(true) && repetitive == Some(true) ==> needs_fallback(
            repetitive,
            unlikely,
            no_speech,
        ),
        no_speech != Some(true) && unlikely == Some(true) ==> needs_fallback(
            repetitive,
            unlikely,
            no_speech,
        ),
        repetitive != Some(true) && unlikely != Some(true) ==> !needs_fallback(
            repetitive,
            unlikely,
            no_speech,
        ),
        no_speech == Some(true) ==> !needs_fallback(repetitive, unlikely, no_speech),
{
}

/// One more fault never makes a window good, and silence never makes it worse.
pub proof fn a_worse_window_is_no_better(
    repetitive: Option<bool>,
    unlikely: Option<bool>,
    no_speech: Option<bool>,
)
    ensures
        needs_fallback(repetitive, unlikely, no_speech) ==> needs_fallback(
            Some(true),
            unlikely,
            no_speech,
        ) && needs_fallback(repetitive, Some(true), no_speech) && needs_fallback(
            repetitive,
            unlikely,
            None,
        ),
{
}

// The cuts of a window.

/// Whether two timestamps stand side by side at `p` and before it.
pub open spec fn is_pair(ids: Seq<u32>, ts_begin: u32, p: int) -> bool {
    0 < p < ids.len() && ids[p - 1] >= ts_begin && ids[p] >= ts_begin
}

/// A window is cut between two timestamps that stand side by side, and nowhere else.
pub proof fn windows_are_cut_between_two_timestamps(ids: Seq<u32>, ts_begin: u32, p: int)
    ensures
        pair_cuts(ids, ts_begin).contains(p) <==> is_pair(ids, ts_begin, p),
    decreases ids.len(),
{
    if ids.len() >= 2 {
        let before = pair_cuts(ids.drop_last(), ts_begin);
        let now = pair_cuts(ids, ts_begin);
        let n = ids.len() as int;
        windows_are_cut_between_two_timestamps(ids.drop_last(), ts_begin, p);
        assert(is_pair(ids.drop_last(), ts_begin, p) <==> is_pair(ids, ts_begin, p) && p < n - 1);
        if before.contains(p) {
            let k = choose|k: int| 0 <= k < before.len() && before[k] == p;
            assert(now[k] == p);
        }
        if is_pair(ids, ts_begin, p) && p == n - 1 {
            assert(now[now.len() - 1] == p);
        }
        if now.contains(p) {
            let k = choose|k: int| 0 <= k < now.len() && now[k] == p;
            if k < before.len() {
                assert(before[k] == p);
            }
        }
    }
}

/// Whether a segment that holds the tokens from `a` up to `b` is cut right: from the start of the
/// window or a pair, to a pair or, behind text and a timestamp, the end of the window; and without a
/// pair in between.
pub open spec fn is_cut(ids: Seq<u32>, ts_begin: u32, a: int, b: int) -> bool {
    &&& 0 <= a < b <= ids.len()
    &&& a == 0 || is_pair(ids, ts_begin, a)
    &&& is_pair(ids, ts_begin, b) || (b == ids.len() && ids.len() >= 2 && ids[b - 1] >= ts_begin
        && ids[b - 2] < ts_begin)
    &&& forall|p: int| a < p < b ==> !(#[trigger] is_pair(ids, ts_begin, p))
}

/// The time of a token in a window: so many timestamps behind its start, and its start for text.
pub open spec fn time_in(w: WindowModel, id: u32) -> int {
    if id >= w.ts_begin {
        w.seek + (id - w.ts_begin) * w.stride
    } else {
        w.seek
    }
}

/// Segment `k` of a list of cuts.
proof fn lemma_segment_of_cuts(
    t: Tokenizer,
    w: WindowModel,
    ids: Seq<u32>,
    cuts: Seq<int>,
    k: int,
)
    requires
        0 <= k < cuts.len(),
    ensures
        cut_segments(t, w, ids, cuts).len() == cuts.len(),
        cut_segments(t, w, ids, cuts)[k] == timed_segment(
            t,
            w,
            ids.subrange(
                if k == 0 {
                    0
                } else {
                    cuts[k - 1]
                },
                cuts[k],
            ),
        ),
    decreases cuts.len(),
{
    let before = cuts.drop_last();
    if k < before.len() {
        lemma_segment_of_cuts(t, w, ids, before, k);
    } else if before.len() > 0 {
        lemma_segment_of_cuts(t, w, ids, before, 0);
    } else {
        assert(cut_segments(t, w, ids, before).len() == 0);
    }
}

/// In a window with a pair of timestamps, every segment holds the tokens between two cuts, starts at
/// the time of the first of them and ends at the time of the last; and one follows the other without
/// a gap in the tokens.
pub proof fn segments_lie_between_cuts(t: Tokenizer, w: WindowModel, ids: Seq<u32>, k: int) -> (r: (
    int,
    int,
))
    requires
        exists|p: int| is_pair(ids, w.ts_begin, p),
        0 <= k < window_segments(t, w, ids).len(),
    ensures
        ({
            let s = window_segments(t, w, ids)[k];
            &&& is_cut(ids, w.ts_begin, r.0, r.1)
            &&& k == 0 ==> r.0 == 0
            &&& s.tokens == ids.subrange(r.0, r.1)
            &&& s.seek == w.seek
            &&& s.start == time_in(w, ids[r.0])
            &&& s.end == time_in(w, ids[r.1 - 1])
        }),
{
    let ts = w.ts_begin;
    let p0 = choose|p: int| is_pair(ids, ts, p);
    let pairs = pair_cuts(ids, ts);
    windows_are_cut_between_two_timestamps(ids, ts, p0);
    lemma_pair_cuts(ids, ts);
    let cuts = all_cuts(ids, ts);
    assert forall|i: int| 0 <= i < pairs.len() implies cuts[i] == #[trigger] pairs[i] by {}
    lemma_segment_of_cuts(t, w, ids, cuts, 0);
    lemma_segment_of_cuts(t, w, ids, cuts, k);
    let a = if k == 0 {
        0
    } else {
        cuts[k - 1]
    };
    let b = cuts[k];
    if k > 0 {
        assert(pairs[k - 1] == a);
        assert(pairs.contains(a));
        windows_are_cut_between_two_timestamps(ids, ts, a);
    }
    if k < pairs.len() {
        assert(pairs[k] == b);
        assert(pairs.contains(b));
        windows_are_cut_between_two_timestamps(ids, ts, b);
    }
    assert forall|p: int| a < p < b implies !(#[trigger] is_pair(ids, ts, p)) by {
        windows_are_cut_between_two_timestamps(ids, ts, p);
        if pairs.contains(p) {
            let m = choose|m: int| 0 <= m < pairs.len() && pairs[m] == p;
            if m < k {
                assert(m < k - 1 ==> pairs[m] < pairs[k - 1]);
            } else if m > k {
                assert(pairs[k] < pairs[m]);
            }
        }
    }
    let part = ids.subrange(a, b);
    assert(part[0] == ids[a] && part.last() == ids[b - 1]);
    assert(0 * w.stride == 0) by (nonlinear_arith);
    (a, b)
}

/// The segments of a window with a pair of timestamps hold its tokens from the first on, in order:
/// all of them where it ends in text and a timestamp, and else up to the last pair.
pub proof fn segments_hold_all_closed_tokens(t: Tokenizer, w: WindowModel, ids: Seq<u32>, p: int)
    requires
        is_pair(ids, w.ts_begin, p),
        forall|q: int| #[trigger] is_pair(ids, w.ts_begin, q) ==> q <= p,
    ensures
        tokens_of(window_segments(t, w, ids)) == (if ids[ids.len() - 1] >= w.ts_begin && ids[
        ids.len() - 2] < w.ts_begin {
            ids
        } else {
            ids.take(p)
        }),
{
    let ts = w.ts_begin;
    let pairs = pair_cuts(ids, ts);
    windows_are_cut_between_two_timestamps(ids, ts, p);
    crate::transcribe::segments_hold_the_tokens(t, w, ids);
    lemma_pair_cuts(ids, ts);
    let k = choose|k: int| 0 <= k < pairs.len() && pairs[k] == p;
    let m = pairs.len() - 1;
    assert(pairs.contains(pairs[m]));
    windows_are_cut_between_two_timestamps(ids, ts, pairs[m]);
    assert(k < m ==> pairs[k] < pairs[m]);
    assert(pairs.last() == p);
    assert(ids.take(ids.len() as int) =~= ids);
}

/// A window without a pair of timestamps is one segment that holds all its tokens and starts with
/// it.
pub proof fn a_window_without_a_pair_is_one_segment(t: Tokenizer, w: WindowModel, ids: Seq<u32>)
    requires
        forall|p: int| !(#[trigger] is_pair(ids, w.ts_begin, p)),
    ensures
        ({
            let s = window_segments(t, w, ids);
            &&& s.len() == 1
            &&& s[0].tokens == ids
            &&& s[0].seek == w.seek
            &&& s[0].start == w.seek
        }),
        next_seek(w, ids) == w.seek + w.size,
{
    lemma_no_pairs(ids, w.ts_begin);
}

proof fn lemma_no_pairs(ids: Seq<u32>, ts_begin: u32)
    requires
        forall|p: int| !(#[trigger] is_pair(ids, ts_begin, p)),
    ensures
        pair_cuts(ids, ts_begin).len() == 0,
{
    let pairs = pair_cuts(ids, ts_begin);
    if pairs.len() > 0 {
        assert(pairs.contains(pairs[0]));
        windows_are_cut_between_two_timestamps(ids, ts_begin, pairs[0]);
    }
}

/// Whether the last timestamp of a window stands at `k`.
pub open spec fn last_timestamp_at(ids: Seq<u32>, ts_begin: u32, k: int) -> bool {
    &&& 0 <= k < ids.len()
    &&& ids[k] >= ts_begin
    &&& forall|j: int| k < j < ids.len() ==> #[trigger] ids[j] < ts_begin
}

proof fn lemma_final_stamp_at(ids: Seq<u32>, ts_begin: u32, k: int)
    requires
        last_timestamp_at(ids, ts_begin, k),
    ensures
        final_stamp(ids, ts_begin) == Some(ids[k]),
    decreases ids.len(),
{
    if k < ids.len() - 1 {
        assert(ids[ids.len() - 1] < ts_begin);
        let before = ids.drop_last();
        assert forall|j: int| k < j < before.len() implies #[trigger] before[j] < ts_begin by {
            assert(before[j] == ids[j]);
        }
        lemma_final_stamp_at(before, ts_begin, k);
    }
}

proof fn lemma_no_final_stamp(ids: Seq<u32>, ts_begin: u32)
    requires
        forall|j: int| 0 <= j < ids.len() ==> #[trigger] ids[j] < ts_begin,
    ensures
        final_stamp(ids, ts_begin) is None,
    decreases ids.len(),
{
    if ids.len() > 0 {
        assert(ids[ids.len() - 1] < ts_begin);
        assert forall|j: int| 0 <= j < ids.len() - 1 implies #[trigger] ids.drop_last()[j]
            < ts_begin by {
            assert(ids.drop_last()[j] == ids[j]);
        }
        lemma_no_final_stamp(ids.drop_last(), ts_begin);
    }
}

/// The one segment of a window without a pair ends at the last timestamp, unless that is of 0 s.
pub proof fn a_whole_window_ends_at_its_last_timestamp(
    t: Tokenizer,
    w: WindowModel,
    ids: Seq<u32>,
    k: int,
)
    requires
        forall|p: int| !(#[trigger] is_pair(ids, w.ts_begin, p)),
        last_timestamp_at(ids, w.ts_begin, k),
    ensures
        ids[k] > w.ts_begin ==> window_segments(t, w, ids)[0].end == time_in(w, ids[k]),
        ids[k] == w.ts_begin ==> window_segments(t, w, ids)[0].end == w.seek + w.size,
{
    lemma_no_pairs(ids, w.ts_begin);
    lemma_final_stamp_at(ids, w.ts_begin, k);
}

/// Without a timestamp it ends where the window ends.
pub proof fn a_window_of_text_ends_where_it_ends(t: Tokenizer, w: WindowModel, ids: Seq<u32>)
    requires
        forall|j: int| 0 <= j < ids.len() ==> #[trigger] ids[j] < w.ts_begin,
    ensures
        window_segments(t, w, ids).len() == 1,
        window_segments(t, w, ids)[0].start == w.seek,
        window_segments(t, w, ids)[0].end == w.seek + w.size,
{
    assert forall|p: int| !(#[trigger] is_pair(ids, w.ts_begin, p)) by {
        if is_pair(ids, w.ts_begin, p) {
            assert(ids[p] < w.ts_begin);
        }
    }
    lemma_no_pairs(ids, w.ts_begin);
    lemma_no_final_stamp(ids, w.ts_begin);
}

/// The next window starts where the last segment ends that a pair of timestamps closes, so that what
/// follows is heard again; and right behind this window where the tokens end in text and a
/// timestamp, or that would be no step ahead.
pub proof fn the_next_window_starts_at_the_last_pair(w: WindowModel, ids: Seq<u32>, p: int)
    requires
        is_pair(ids, w.ts_begin, p),
        forall|q: int| #[trigger] is_pair(ids, w.ts_begin, q) ==> q <= p,
    ensures
        next_seek(w, ids) == (if (ids[ids.len() - 1] >= w.ts_begin && ids[ids.len() - 2]
            < w.ts_begin) || time_in(w, ids[p - 1]) <= w.seek {
            w.seek + w.size
        } else {
            time_in(w, ids[p - 1])
        }),
{
    let ts = w.ts_begin;
    let pairs = pair_cuts(ids, ts);
    windows_are_cut_between_two_timestamps(ids, ts, p);
    lemma_pair_cuts(ids, ts);
    let k = choose|k: int| 0 <= k < pairs.len() && pairs[k] == p;
    let m = pairs.len() - 1;
    assert(pairs.contains(pairs[m]));
    windows_are_cut_between_two_timestamps(ids, ts, pairs[m]);
    assert(k < m ==> pairs[k] < pairs[m]);
    assert(pairs.last() == p);
}

// The text.

/// Leaving out timestamps first changes nothing of what special tokens are left out.
proof fn lemma_below_twice(ids: Seq<u32>, a: u32, b: u32)
    requires
        a <= b,
    ensures
        ids_below(ids_below(ids, b), a) == ids_below(ids, a),
    decreases ids.len(),
{
    if ids.len() > 0 {
        lemma_below_twice(ids.drop_last(), a, b);
        let rest = ids_below(ids.drop_last(), b);
        if ids.last() < b {
            assert(rest.push(ids.last()).drop_last() =~= rest);
        }
    } else {
        assert(ids_below(ids, b) =~= ids);
    }
}

/// The text of a segment is the text of its tokens.
pub proof fn a_segment_has_the_text_of_its_tokens(
    t: Tokenizer,
    w: WindowModel,
    ids: Seq<u32>,
    k: int,
)
    requires
        t.encoding.eot_token <= w.ts_begin,
        0 <= k < window_segments(t, w, ids).len(),
    ensures
        window_segments(t, w, ids)[k].text == plain_text(t, window_segments(t, w, ids)[k].tokens),
        window_segments(t, w, ids)[k].text == trimmed(
            spoken(t, window_segments(t, w, ids)[k].tokens),
            TrimSet::White,
        ),
{
    let s = window_segments(t, w, ids)[k];
    if pair_cuts(ids, w.ts_begin).len() > 0 {
        lemma_segment_of_cuts(t, w, ids, all_cuts(ids, w.ts_begin), 0);
        lemma_segment_of_cuts(t, w, ids, all_cuts(ids, w.ts_begin), k);
    }
    lemma_below_twice(s.tokens, t.encoding.eot_token, w.ts_begin);
}

/// The tokens of segments are those of each, one after the other.
pub proof fn tokens_come_in_order(a: Seq<SegmentModel>, s: SegmentModel, b: Seq<SegmentModel>)
    ensures
        tokens_of(Seq::<SegmentModel>::empty()) == Seq::<u32>::empty(),
        tokens_of(a.push(s) + b) == tokens_of(a) + s.tokens + tokens_of(b),
    decreases b.len(),
{
    if b.len() == 0 {
        assert(a.push(s) + b =~= a.push(s));
        assert(a.push(s).drop_last() =~= a);
        assert(tokens_of(a) + s.tokens + tokens_of(b) =~= tokens_of(a) + s.tokens);
    } else {
        tokens_come_in_order(a, s, b.drop_last());
        assert((a.push(s) + b).drop_last() =~= a.push(s) + b.drop_last());
        assert(tokens_of(a.push(s) + b) =~= tokens_of(a) + s.tokens + tokens_of(b));
    }
}

/// Whether every segment has the bytes of whole characters.
pub open spec fn all_whole(t: Tokenizer, segments: Seq<SegmentModel>) -> bool {
    forall|k: int|
        0 <= k < segments.len() ==> speaks_whole_characters(t, (#[trigger] segments[k]).tokens)
}

/// Segments of whole characters make up a text of whole characters.
proof fn lemma_segments_are_whole(t: Tokenizer, segments: Seq<SegmentModel>)
    requires
        all_whole(t, segments),
    ensures
        speaks_whole_characters(t, tokens_of(segments)),
    decreases segments.len(),
{
    let eot = t.encoding.eot_token;
    if segments.len() == 0 {
        assert(ids_below(tokens_of(segments), eot) =~= Seq::<u32>::empty());
        assert(crate::encoding::bytes_of_ids(Seq::<u32>::empty(), t.encoding.vocab@) =~= Seq::<
            u8,
        >::empty());
    } else {
        let before = segments.drop_last();
        assert forall|k: int| 0 <= k < before.len() implies speaks_whole_characters(
            t,
            (#[trigger] before[k]).tokens,
        ) by {
            assert(before[k] == segments[k]);
        }
        lemma_segments_are_whole(t, before);
        assert(speaks_whole_characters(t, segments[segments.len() - 1].tokens));
        the_text_of_more_ids_goes_on(t, tokens_of(before), segments.last().tokens);
    }
}

/// The text of a transcript, of any length, is the speech of all its segments, one behind the other.
pub proof fn the_transcript_speaks_all_segments(
    t: Tokenizer,
    a: Seq<SegmentModel>,
    s: SegmentModel,
    b: Seq<SegmentModel>,
)
    requires
        all_whole(t, a),
        speaks_whole_characters(t, s.tokens),
        all_whole(t, b),
    ensures
        plain_text(t, tokens_of(a.push(s) + b)) == trimmed(
            spoken(t, tokens_of(a)) + spoken(t, s.tokens) + spoken(t, tokens_of(b)),
            TrimSet::White,
        ),
{
    lemma_segments_are_whole(t, a);
    lemma_segments_are_whole(t, b);
    tokens_come_in_order(a, s, b);
    the_text_of_more_ids_goes_on(t, tokens_of(a), s.tokens);
    the_text_of_more_ids_goes_on(t, tokens_of(a) + s.tokens, tokens_of(b));
}

/// The text of a transcript holds the text of every segment that has one.
pub proof fn the_transcript_holds_every_segment(
    t: Tokenizer,
    a: Seq<SegmentModel>,
    s: SegmentModel,
    b: Seq<SegmentModel>,
) -> (i: int)
    requires
        all_whole(t, a),
        speaks_whole_characters(t, s.tokens),
        all_whole(t, b),
        plain_text(t, s.tokens).len() > 0,
    ensures
        ({
            let all = plain_text(t, tokens_of(a.push(s) + b));
            let part = plain_text(t, s.tokens);
            0 <= i <= all.len() - part.len() && all.subrange(i, i + part.len()) == part
        }),
{
    the_transcript_speaks_all_segments(t, a, s, b);
    the_text_of_more_ids_goes_on(t, s.tokens, s.tokens);
    trimmed_parts_stand_in_the_trimmed_text(
        spoken(t, tokens_of(a)),
        spoken(t, s.tokens),
        spoken(t, tokens_of(b)),
        TrimSet::White,
    )
}

/// Segments are kept one by one, in their order: those that take time and have a text, and no
/// others.
pub proof fn segments_are_kept_one_by_one(a: Seq<SegmentModel>, s: SegmentModel)
    ensures
        kept(Seq::<SegmentModel>::empty()) == Seq::<SegmentModel>::empty(),
        s.start < s.end && s.text.len() > 0 ==> kept(a.push(s)) == kept(a).push(s),
        s.start >= s.end || s.text.len() == 0 ==> kept(a.push(s)) == kept(a),
{
    assert(a.push(s).drop_last() =~= a);
}

// Times and languages.

/// The hours, minutes, seconds and milliseconds of a time.
proof fn lemma_parts_of_a_time(h: nat, m: nat, s: nat, ms: nat)
    requires
        m < 60,
        s < 60,
        ms < 1000,
    ensures
        ({
            let all = ((h * 60 + m) * 60 + s) * 1000 + ms;
            &&& all / 3_600_000 == h
            &&& all % 3_600_000 / 60_000 == m
            &&& all % 60_000 / 1_000 == s
            &&& all % 1_000 == ms
        }),
{
    let all = ((h * 60 + m) * 60 + s) * 1000 + ms;
    assert(all == 3_600_000 * h + 60_000 * m + 1_000 * s + ms);
    assert(all % 3_600_000 == 60_000 * m + 1_000 * s + ms);
    assert(all % 60_000 == 1_000 * s + ms);
}

/// Hours are written with at least two digits.
proof fn lemma_hours_text(h: nat)
    requires
        h > 0,
    ensures
        h < 10 ==> hours_text(h) == seq!['0'] + decimal(h),
        h >= 10 ==> hours_text(h) == decimal(h),
{
    reveal_with_fuel(padded_decimal, 3);
    reveal_with_fuel(decimal, 3);
    if h < 10 {
        assert(padded_decimal(h, 2) =~= seq!['0'] + decimal(h));
    } else if h < 100 {
        assert(padded_decimal(h, 2) =~= decimal(h));
    }
}

/// A time is written as its minutes, seconds and milliseconds, with two, two and three digits, and
/// with the hours before them where there are any.
pub proof fn times_are_written_in_hours_minutes_and_seconds(h: nat, m: nat, s: nat, ms: nat)
    requires
        m < 60,
        s < 60,
        ms < 1000,
    ensures
        ({
            let rest = padded_decimal(m, 2) + seq![':'] + padded_decimal(s, 2) + seq!['.']
                + padded_decimal(ms, 3);
            let text = timestamp_text(((h * 60 + m) * 60 + s) * 1000 + ms);
            &&& h == 0 ==> text == rest
            &&& 0 < h < 10 ==> text == seq!['0'] + decimal(h) + seq![':'] + rest
            &&& h >= 10 ==> text == decimal(h) + seq![':'] + rest
        }),
{
    let all = ((h * 60 + m) * 60 + s) * 1000 + ms;
    let rest = padded_decimal(m, 2) + seq![':'] + padded_decimal(s, 2) + seq!['.']
        + padded_decimal(ms, 3);
    lemma_parts_of_a_time(h, m, s, ms);
    assert(padded_decimal(m, 2).push(':') + padded_decimal(s, 2).push('.') + padded_decimal(ms, 3)
        =~= rest);
    if h > 0 {
        lemma_hours_text(h);
        assert(timestamp_text(all) =~= hours_text(h) + seq![':'] + rest);
    }
}

/// The likeliest language is one with a probability, and none is likelier, nor as likely and before
/// it.
pub proof fn no_language_is_likelier_than_the_best(keys: Seq<u32>, i: int, j: int)
    requires
        is_best(keys, i),
        0 <= j < keys.len(),
    ensures
        0 <= i < keys.len(),
        0 < keys[i],
        keys[j] <= keys[i],
        j < i ==> keys[j] < keys[i],
{
}

/// Where any language has a probability, one of them is the best.
pub proof fn some_language_is_the_best(keys: Seq<u32>)
    ensures
        (exists|j: int| 0 <= j < keys.len() && #[trigger] keys[j] > 0) ==> exists|i: int| #[trigger]
            is_best(keys, i),
    decreases keys.len(),
{
    if keys.len() > 0 {
        let before = keys.drop_last();
        let n = keys.len() - 1;
        some_language_is_the_best(before);
        assert(forall|j: int| 0 <= j < n ==> #[trigger] before[j] == keys[j]);
        if exists|j: int| 0 <= j < n && #[trigger] before[j] > 0 {
            let i = choose|i: int| #[trigger] is_best(before, i);
            if keys[n] > keys[i] {
                assert forall|j: int| 0 <= j < n implies #[trigger] keys[j] < keys[n] by {
                    assert(before[j] <= before[i]);
                }
                assert(is_best(keys, n));
            } else {
                assert forall|j: int| 0 <= j < keys.len() implies #[trigger] keys[j] <= keys[i] by {
                    if j < n {
                        assert(before[j] <= before[i]);
                    }
                }
                assert forall|j: int| 0 <= j < i implies #[trigger] keys[j] < keys[i] by {
                    assert(before[j] < before[i]);
                }
                assert(is_best(keys, i));
            }
        } else if keys[n] > 0 {
            assert forall|j: int| 0 <= j < n implies #[trigger] keys[j] == 0 by {
                assert(before[j] == keys[j]);
            }
            assert(is_best(keys, n));
        } else {
            assert forall|j: int| 0 <= j < keys.len() implies #[trigger] keys[j] == 0 by {
                if j < n {
                    assert(before[j] == keys[j]);
                }
            }
        }
    }
}

/// A capital is put in place of a small ASCII letter at the start of a text, and nothing else is
/// changed.
pub proof fn only_the_first_letter_is_made_a_capital(c: char, rest: Seq<char>)
    ensures
        'a' <= c <= 'z' ==> capitalized(seq![c] + rest) == seq![(c as u32 - 32) as char] + rest,
        c < 'a' || c > 'z' ==> capitalized(seq![c] + rest) == seq![c] + rest,
        capitalized(Seq::<char>::empty()) == Seq::<char>::empty(),
{
    let s = seq![c] + rest;
    assert(s[0] == c);
    if 'a' <= c <= 'z' {
        assert(capitalized(s) =~= seq![(c as u32 - 32) as char] + rest);
    }
}

} // verus!
