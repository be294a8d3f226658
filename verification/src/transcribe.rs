//! Transcribing audio of any length in windows of 30 seconds.
//!
//! Times are counted in mel frames, of which there are 100 in a second.

use vstd::prelude::*;

use crate::audio::N_FRAMES;
use crate::decoding::{
    build_mask, decode_plain, masks_ids, names_token, obeys_rules, plain_text, timestamps_rise,
    up_to, up_to_holds_no_stop, DecodeSession, DecodingOptions, StampLayout,
};
use crate::encoding::ids_of_text;
use crate::languages::{
    find_code, first_codes, index_in, language_name, name_at, LANGUAGE_COUNT,
};
use crate::numbers::{decimal, decimal_chars, padded_decimal, padded_decimal_chars};
use crate::symbols::spaced;
use crate::text::{chars_of, slice_to_vec, string_of, trim, trimmed, TrimSet};
use crate::tokenizer::{ids_below, Tokenizer};

verus! {

// Segments.

/// A piece of the transcript.
pub struct Segment {
    pub id: usize,
    /// Where the window starts that the segment was found in.
    pub seek: u64,
    pub start: u64,
    pub end: u64,
    pub text: String,
    pub tokens: Vec<u32>,
}

/// A segment by its contents, without its number.
pub struct SegmentModel {
    pub seek: int,
    pub start: int,
    pub end: int,
    pub text: Seq<char>,
    pub tokens: Seq<u32>,
}

impl Segment {
    /// The segment by its contents.
    pub open spec fn model(self) -> SegmentModel {
        SegmentModel {
            seek: self.seek as int,
            start: self.start as int,
            end: self.end as int,
            text: self.text@,
            tokens: self.tokens@,
        }
    }
}

/// Segments by their contents.
pub open spec fn models(segments: Seq<Segment>) -> Seq<SegmentModel> {
    segments.map_values(|s: Segment| s.model())
}

/// How far timestamp `t` is behind the first one; 0 where `t` is none.
pub open spec fn stamp(t: u32, ts_begin: u32) -> int {
    if t >= ts_begin {
        t - ts_begin
    } else {
        0
    }
}

/// Where a window stands, and how its timestamps count.
pub struct WindowModel {
    pub seek: int,
    /// The number of frames of the window.
    pub size: int,
    /// The number of frames between two timestamps.
    pub stride: int,
    pub ts_begin: u32,
}

/// The text of a list of tokens, timestamps left out.
pub open spec fn segment_text(t: Tokenizer, ts_begin: u32, ids: Seq<u32>) -> Seq<char> {
    plain_text(t, ids_below(ids, ts_begin))
}

/// The segment of a run of tokens that lies between the timestamps at its ends.
pub open spec fn timed_segment(t: Tokenizer, w: WindowModel, ids: Seq<u32>) -> SegmentModel {
    SegmentModel {
        seek: w.seek,
        start: w.seek + stamp(ids[0], w.ts_begin) * w.stride,
        end: w.seek + stamp(ids.last(), w.ts_begin) * w.stride,
        text: segment_text(t, w.ts_begin, ids),
        tokens: ids,
    }
}

/// The positions behind a timestamp at which another timestamp stands.
pub open spec fn pair_cuts(ids: Seq<u32>, ts_begin: u32) -> Seq<int>
    decreases ids.len(),
{
    let n = ids.len() as int;
    if n < 2 {
        seq![]
    } else if ids[n - 2] >= ts_begin && ids[n - 1] >= ts_begin {
        pair_cuts(ids.drop_last(), ts_begin).push(n - 1)
    } else {
        pair_cuts(ids.drop_last(), ts_begin)
    }
}

/// Whether the tokens end in text and one timestamp.
pub open spec fn single_ending(ids: Seq<u32>, ts_begin: u32) -> bool {
    let n = ids.len() as int;
    n >= 2 && ids[n - 2] < ts_begin && ids[n - 1] >= ts_begin
}

/// The positions at which tokens with pairs of timestamps are cut.
pub open spec fn all_cuts(ids: Seq<u32>, ts_begin: u32) -> Seq<int> {
    if single_ending(ids, ts_begin) {
        pair_cuts(ids, ts_begin).push(ids.len() as int)
    } else {
        pair_cuts(ids, ts_begin)
    }
}

/// The segments of tokens that are cut at `cuts`; what follows the last cut is left out.
pub open spec fn cut_segments(t: Tokenizer, w: WindowModel, ids: Seq<u32>, cuts: Seq<int>) -> Seq<
    SegmentModel,
>
    decreases cuts.len(),
{
    if cuts.len() == 0 {
        seq![]
    } else {
        let from = if cuts.len() == 1 {
            0
        } else {
            cuts[cuts.len() - 2]
        };
        cut_segments(t, w, ids, cuts.drop_last()).push(
            timed_segment(t, w, ids.subrange(from, cuts.last())),
        )
    }
}

/// The last timestamp of a list, that of 0 s included.
pub open spec fn final_stamp(ids: Seq<u32>, ts_begin: u32) -> Option<u32>
    decreases ids.len(),
{
    if ids.len() == 0 {
        None
    } else if ids.last() >= ts_begin {
        Some(ids.last())
    } else {
        final_stamp(ids.drop_last(), ts_begin)
    }
}

/// How long a window without a pair of timestamps speaks: to its last timestamp, or to its end
/// where there is none but that of 0 s.
pub open spec fn whole_duration(w: WindowModel, ids: Seq<u32>) -> int {
    match final_stamp(ids, w.ts_begin) {
        Some(t) => if t != w.ts_begin {
            (t - w.ts_begin) * w.stride
        } else {
            w.size
        },
        None => w.size,
    }
}

/// The one segment of a window without a pair of timestamps.
pub open spec fn whole_segment(t: Tokenizer, w: WindowModel, ids: Seq<u32>) -> SegmentModel {
    SegmentModel {
        seek: w.seek,
        start: w.seek,
        end: w.seek + whole_duration(w, ids),
        text: segment_text(t, w.ts_begin, ids),
        tokens: ids,
    }
}

/// The segments of a window.
pub open spec fn window_segments(t: Tokenizer, w: WindowModel, ids: Seq<u32>) -> Seq<
    SegmentModel,
> {
    if pair_cuts(ids, w.ts_begin).len() > 0 {
        cut_segments(t, w, ids, all_cuts(ids, w.ts_begin))
    } else {
        seq![whole_segment(t, w, ids)]
    }
}

/// Where the next window starts: where the last segment ends that a timestamp closes, or behind
/// this window; and always later than this one.
pub open spec fn next_seek(w: WindowModel, ids: Seq<u32>) -> int {
    let cuts = pair_cuts(ids, w.ts_begin);
    let step = if cuts.len() > 0 && !single_ending(ids, w.ts_begin) {
        stamp(ids[cuts.last() - 1], w.ts_begin) * w.stride
    } else {
        w.size
    };
    w.seek + if step > 0 {
        step
    } else {
        w.size
    }
}

/// Whether a segment is kept: it takes time, and has a text.
pub open spec fn is_kept(s: SegmentModel) -> bool {
    s.start < s.end && s.text.len() > 0
}

/// The segments that are kept.
pub open spec fn kept(segments: Seq<SegmentModel>) -> Seq<SegmentModel>
    decreases segments.len(),
{
    if segments.len() == 0 {
        seq![]
    } else if is_kept(segments.last()) {
        kept(segments.drop_last()).push(segments.last())
    } else {
        kept(segments.drop_last())
    }
}

/// The tokens of segments, one after the other.
pub open spec fn tokens_of(segments: Seq<SegmentModel>) -> Seq<u32>
    decreases segments.len(),
{
    if segments.len() == 0 {
        seq![]
    } else {
        tokens_of(segments.drop_last()) + segments.last().tokens
    }
}

/// Cuts lie in order within the tokens.
pub proof fn lemma_pair_cuts(ids: Seq<u32>, ts_begin: u32)
    ensures
        pair_cuts(ids, ts_begin).len() < ids.len() || ids.len() == 0,
        forall|i: int|
            0 <= i < pair_cuts(ids, ts_begin).len() ==> 1 <= #[trigger] pair_cuts(ids, ts_begin)[i]
                < ids.len(),
        forall|i: int, j: int|
            0 <= i < j < pair_cuts(ids, ts_begin).len() ==> #[trigger] pair_cuts(ids, ts_begin)[i]
                < #[trigger] pair_cuts(ids, ts_begin)[j],
        ids.len() == 0 ==> pair_cuts(ids, ts_begin).len() == 0,
    decreases ids.len(),
{
    if ids.len() >= 2 {
        let before = pair_cuts(ids.drop_last(), ts_begin);
        lemma_pair_cuts(ids.drop_last(), ts_begin);
        let now = pair_cuts(ids, ts_begin);
        assert forall|i: int| 0 <= i < now.len() implies 1 <= #[trigger] now[i] < ids.len() by {
            if i < before.len() {
                assert(now[i] == before[i]);
            }
        }
        assert forall|i: int, j: int| 0 <= i < j < now.len() implies #[trigger] now[i]
            < #[trigger] now[j] by {
            assert(now[i] == before[i]);
            if j < before.len() {
                assert(now[j] == before[j]);
            }
        }
    }
}

/// Positions as integers.
pub open spec fn positions(v: Seq<usize>) -> Seq<int> {
    v.map_values(|x: usize| x as int)
}

/// Finds the positions behind a timestamp at which another timestamp stands.
fn find_pair_cuts(ids: &[u32], ts_begin: u32) -> (r: Vec<usize>)
    ensures
        positions(r@) == pair_cuts(ids@, ts_begin),
{
    let mut cuts: Vec<usize> = Vec::new();
    let mut n: usize = 1;
    if ids.len() == 0 {
        assert(positions(cuts@) =~= pair_cuts(ids@, ts_begin));
        return cuts;
    }
    assert(positions(cuts@) =~= pair_cuts(ids@.take(1), ts_begin));
    while n < ids.len()
        invariant
            1 <= n <= ids@.len(),
            positions(cuts@) == pair_cuts(ids@.take(n as int), ts_begin),
        decreases ids@.len() - n,
    {
        assert(ids@.take(n + 1).drop_last() =~= ids@.take(n as int));
        let ghost before = positions(cuts@);
        if ids[n - 1] >= ts_begin && ids[n] >= ts_begin {
            cuts.push(n);
            assert(positions(cuts@) =~= before.push(n as int));
        }
        n += 1;
    }
    assert(ids@.take(n as int) =~= ids@);
    cuts
}

/// Finds the last timestamp of a list.
fn find_final_stamp(ids: &[u32], ts_begin: u32) -> (r: Option<u32>)
    ensures
        r == final_stamp(ids@, ts_begin),
        r matches Some(t) ==> t >= ts_begin,
{
    let mut n: usize = ids.len();
    assert(ids@.take(n as int) =~= ids@);
    while n > 0
        invariant
            n <= ids@.len(),
            final_stamp(ids@.take(n as int), ts_begin) == final_stamp(ids@, ts_begin),
        decreases n,
    {
        assert(ids@.take(n as int).drop_last() =~= ids@.take(n - 1));
        if ids[n - 1] >= ts_begin {
            return Some(ids[n - 1]);
        }
        n -= 1;
    }
    None
}

/// The ids of a list that are below `limit`.
fn keep_below(ids: &[u32], limit: u32) -> (r: Vec<u32>)
    ensures
        r@ == ids_below(ids@, limit),
{
    let mut r: Vec<u32> = Vec::new();
    let mut i: usize = 0;
    while i < ids.len()
        invariant
            i <= ids@.len(),
            r@ == ids_below(ids@.take(i as int), limit),
        decreases ids@.len() - i,
    {
        assert(ids@.take(i + 1).drop_last() =~= ids@.take(i as int));
        if ids[i] < limit {
            r.push(ids[i]);
        }
        i += 1;
    }
    assert(ids@.take(i as int) =~= ids@);
    r
}

/// The position of timestamp `t` in time: `seek` plus the timestamp's frames.
fn time_of(seek: u64, stride: u64, t: u32, ts_begin: u32) -> (r: u64)
    requires
        seek <= 0x1000_0000_0000,
        stride <= N_FRAMES,
    ensures
        r == seek + stamp(t, ts_begin) * stride,
        r <= seek + 0x1000_0000_0000,
{
    let steps: u64 = if t >= ts_begin {
        (t - ts_begin) as u64
    } else {
        0
    };
    assert(steps * stride <= 0xffff_ffff * 3000) by (nonlinear_arith)
        requires
            steps <= 0xffff_ffff,
            stride <= 3000,
    ;
    assert(0 <= steps * stride) by (nonlinear_arith);
    seek + steps * stride
}

/// Where a window stands, and how its timestamps count.
#[derive(Clone, Copy, Debug, PartialEq, Eq, Structural)]
pub struct Window {
    pub seek: u64,
    /// The number of frames of the window.
    pub size: u64,
    /// The number of frames between two timestamps.
    pub stride: u64,
}

impl Window {
    /// The window as integers, with the first timestamp of the tokens.
    pub open spec fn model(self, ts_begin: u32) -> WindowModel {
        WindowModel {
            seek: self.seek as int,
            size: self.size as int,
            stride: self.stride as int,
            ts_begin,
        }
    }

    /// The window is within the range of what can be counted.
    pub open spec fn wf(self) -> bool {
        &&& self.seek <= i32::MAX
        &&& 0 < self.size <= N_FRAMES
        &&& self.stride <= N_FRAMES
    }

    /// The first frame of the spectrogram that the model is given for the window, and the one
    /// behind the last: always as many as a window holds. In the last window, those behind the
    /// audio are frames of the silence that is appended to it.
    pub fn frames(&self) -> (r: (u64, u64))
        requires
            self.wf(),
        ensures
            r.0 == self.seek,
            r.1 == self.seek + N_FRAMES,
    {
        (self.seek, self.seek + N_FRAMES as u64)
    }
}

/// Makes a segment.
fn make_segment(
    tokenizer: &Tokenizer,
    ts_begin: u32,
    seek: u64,
    start: u64,
    end: u64,
    ids: &[u32],
) -> (r: Segment)
    ensures
        r.model() == (SegmentModel {
            seek: seek as int,
            start: start as int,
            end: end as int,
            text: segment_text(*tokenizer, ts_begin, ids@),
            tokens: ids@,
        }),
{
    let words = keep_below(ids, ts_begin);
    let text = decode_plain(tokenizer, &words);
    Segment { id: 0, seek, start, end, text, tokens: slice_to_vec(ids) }
}

/// Cuts the tokens of a window into segments.
pub fn cut_window(tokenizer: &Tokenizer, window: &Window, ids: &[u32]) -> (r: (Vec<Segment>, u64))
    requires
        tokenizer.encoding.wf(),
        window.wf(),
    ensures
        models(r.0@) == window_segments(
            *tokenizer,
            window.model(tokenizer.ts_begin()),
            ids@,
        ),
        r.1 == next_seek(window.model(tokenizer.ts_begin()), ids@),
{
    let ts: u32 = tokenizer.timestamp_begin();
    let ghost w = window.model(ts);
    let ghost t = *tokenizer;
    let n: usize = ids.len();
    let single = n >= 2 && ids[n - 2] < ts && ids[n - 1] >= ts;
    let mut cuts = find_pair_cuts(ids, ts);
    let ghost pairs = pair_cuts(ids@, ts);
    proof {
        lemma_pair_cuts(ids@, ts);
    }
    let mut segments: Vec<Segment> = Vec::new();
    assert(models(segments@) =~= Seq::<SegmentModel>::empty());
    if cuts.len() == 0 {
        let end: u64 = match find_final_stamp(ids, ts) {
            Some(last) => {
                if last != ts {
                    time_of(window.seek, window.stride, last, ts)
                } else {
                    window.seek + window.size
                }
            },
            None => window.seek + window.size,
        };
        assert(end == w.seek + whole_duration(w, ids@));
        segments.push(make_segment(tokenizer, ts, window.seek, window.seek, end, ids));
        assert(models(segments@) =~= seq![whole_segment(t, w, ids@)]);
        return (segments, window.seek + window.size);
    }
    let last_pair: usize = cuts[cuts.len() - 1];
    assert(positions(cuts@)[cuts@.len() - 1] == last_pair);
    assert(pairs.last() == last_pair);
    if single {
        let ghost before = positions(cuts@);
        cuts.push(n);
        assert(positions(cuts@) =~= before.push(n as int));
    }
    let ghost all = all_cuts(ids@, ts);
    assert(positions(cuts@) == all);
    assert forall|i: int| 0 <= i < cuts@.len() implies 1 <= #[trigger] cuts@[i] <= ids@.len() by {
        assert(all[i] == cuts@[i]);
        if i < pairs.len() {
            assert(pairs[i] == all[i]);
        }
    }
    assert forall|i: int, j: int| 0 <= i < j < cuts@.len() implies #[trigger] cuts@[i]
        < #[trigger] cuts@[j] by {
        assert(all[i] == cuts@[i]);
        assert(all[j] == cuts@[j]);
        assert(pairs[i] == all[i]);
        if j < pairs.len() {
            assert(pairs[j] == all[j]);
        }
    }
    let mut k: usize = 0;
    let mut from: usize = 0;
    assert(all.take(0) =~= Seq::<int>::empty());
    while k < cuts.len()
        invariant
            window.wf(),
            w == window.model(ts),
            t == *tokenizer,
            all == positions(cuts@),
            k <= cuts@.len(),
            forall|i: int| 0 <= i < cuts@.len() ==> 1 <= #[trigger] cuts@[i] <= ids@.len(),
            forall|i: int, j: int|
                0 <= i < j < cuts@.len() ==> #[trigger] cuts@[i] < #[trigger] cuts@[j],
            from == (if k == 0 {
                0
            } else {
                cuts@[k - 1] as int
            }),
            models(segments@) == cut_segments(t, w, ids@, all.take(k as int)),
        decreases cuts@.len() - k,
    {
        let to: usize = cuts[k];
        assert(from < to) by {
            if k > 0 {
                assert(cuts@[k - 1] < cuts@[k as int]);
            }
        }
        let part = &ids[from..to];
        let start: u64 = time_of(window.seek, window.stride, part[0], ts);
        let end: u64 = time_of(window.seek, window.stride, part[part.len() - 1], ts);
        let ghost before = models(segments@);
        segments.push(make_segment(tokenizer, ts, window.seek, start, end, part));
        assert(models(segments@) =~= before.push(timed_segment(t, w, part@)));
        let ghost now = all.take(k + 1);
        assert(now.drop_last() =~= all.take(k as int));
        assert(now.last() == to);
        assert(k > 0 ==> now[now.len() - 2] == cuts@[k - 1]);
        from = to;
        k += 1;
    }
    assert(all.take(k as int) =~= all);
    let next: u64 = if single {
        window.seek + window.size
    } else {
        let at: u64 = time_of(window.seek, window.stride, ids[last_pair - 1], ts);
        if at > window.seek {
            at
        } else {
            window.seek + window.size
        }
    };
    (segments, next)
}

impl Tokenizer {
    /// The id of the first timestamp.
    pub open spec fn ts_begin(self) -> u32 {
        self.encoding.special_id(
            crate::special::timestamp_place(self.encoding.width as nat, 0),
        )
    }
}

/// The models of all segments but the first.
proof fn lemma_models_after_first(list: Seq<Segment>)
    requires
        list.len() > 0,
    ensures
        models(list.drop_first()) == models(list).drop_first(),
{
    assert forall|k: int| 0 <= k < list.len() - 1 implies models(list.drop_first())[k] == models(
        list,
    ).drop_first()[k] by {
        assert(list.drop_first()[k] == list[k + 1]);
    }
    assert(models(list.drop_first()) =~= models(list).drop_first());
}

/// Drops the segments that take no time or have no text.
fn keep_segments(segments: Vec<Segment>) -> (r: Vec<Segment>)
    ensures
        models(r@) == kept(models(segments@)),
{
    let ghost all = models(segments@);
    let mut rest = segments;
    let mut r: Vec<Segment> = Vec::new();
    let n: usize = rest.len();
    let mut i: usize = 0;
    assert(models(r@) =~= kept(all.take(0)));
    while i < n
        invariant
            i <= n,
            n == all.len(),
            rest@.len() == n - i,
            models(rest@) == all.skip(i as int),
            models(r@) == kept(all.take(i as int)),
        decreases n - i,
    {
        let ghost before = models(rest@);
        let ghost list = rest@;
        let segment = rest.remove(0);
        proof {
            lemma_models_after_first(list);
            assert(rest@ =~= list.drop_first());
            assert(models(rest@) =~= all.skip(i + 1));
        }
        assert(segment.model() == before[0]);
        assert(segment.model() == all[i as int]);
        assert(all.take(i + 1).drop_last() =~= all.take(i as int));
        assert(all.take(i + 1).last() == all[i as int]);
        let chars = chars_of(segment.text.as_str());
        let ghost so_far = models(r@);
        if segment.start < segment.end && chars.len() > 0 {
            r.push(segment);
            assert(models(r@) =~= so_far.push(all[i as int]));
        }
        i += 1;
    }
    assert(all.take(i as int) =~= all);
    r
}

// The loop over the windows.

/// A transcript in the making.
pub struct Transcription {
    /// The number of frames of the audio.
    pub content_frames: u64,
    /// The number of frames between two timestamps.
    pub stride: u64,
    /// Where the next window starts.
    pub seek: u64,
    /// The initial prompt, and the tokens of the segments behind it.
    pub all_tokens: Vec<u32>,
    /// The number of tokens of the initial prompt.
    pub prompt_len: usize,
    /// From which token on the next window is given the text before.
    pub prompt_reset_since: usize,
    pub segments: Vec<Segment>,
}

impl Transcription {
    /// The tokens are those of the prompt and of the segments; the segments are numbered in order,
    /// come from windows before the next one, take time and have a text.
    pub open spec fn wf(self) -> bool {
        &&& self.content_frames <= i32::MAX
        &&& self.stride <= N_FRAMES
        &&& self.prompt_len <= self.all_tokens@.len()
        &&& self.prompt_reset_since <= self.all_tokens@.len()
        &&& self.all_tokens@.skip(self.prompt_len as int) == tokens_of(models(self.segments@))
        &&& forall|i: int| 0 <= i < self.segments@.len() ==> (#[trigger] self.segments@[i]).id == i
        &&& forall|i: int|
            0 <= i < self.segments@.len() ==> is_kept((#[trigger] self.segments@[i]).model())
        &&& forall|i: int|
            0 <= i < self.segments@.len() ==> (#[trigger] self.segments@[i]).seek < self.seek
    }

    /// Whether there is audio left.
    pub open spec fn has_window(self) -> bool {
        self.seek < self.content_frames
    }

    /// The next window.
    pub open spec fn window(self) -> Window {
        let left = self.content_frames - self.seek;
        Window {
            seek: self.seek,
            size: (if left < N_FRAMES {
                left
            } else {
                N_FRAMES as int
            }) as u64,
            stride: self.stride,
        }
    }

    /// Starts a transcript of audio of `mel_frames` frames, of which the last window is padding,
    /// for a model with `n_audio_ctx` positions in a window.
    pub fn new(prompt: Vec<u32>, mel_frames: usize, n_audio_ctx: usize) -> (r: Self)
        requires
            mel_frames <= i32::MAX,
            n_audio_ctx > 0,
        ensures
            r.wf(),
            r.content_frames == (if mel_frames > N_FRAMES {
                mel_frames - N_FRAMES
            } else {
                0
            }),
            r.stride == N_FRAMES as int / n_audio_ctx as int,
            r.seek == 0,
            r.all_tokens@ == prompt@,
            r.prompt_len == prompt@.len(),
            r.prompt_reset_since == 0,
            r.segments@.len() == 0,
    {
        let content: usize = if mel_frames > N_FRAMES {
            mel_frames - N_FRAMES
        } else {
            0
        };
        assert(N_FRAMES as int / n_audio_ctx as int <= N_FRAMES) by (nonlinear_arith)
            requires
                n_audio_ctx > 0,
        ;
        let stride: usize = N_FRAMES / n_audio_ctx;
        let prompt_len: usize = prompt.len();
        let r = Transcription {
            content_frames: content as u64,
            stride: stride as u64,
            seek: 0,
            all_tokens: prompt,
            prompt_len,
            prompt_reset_since: 0,
            segments: Vec::new(),
        };
        assert(r.all_tokens@.skip(prompt_len as int) =~= tokens_of(models(r.segments@)));
        r
    }

    /// The next window, where there is audio left.
    pub fn next_window(&self) -> (r: Option<Window>)
        requires
            self.wf(),
        ensures
            match r {
                Some(w) => self.has_window() && w == self.window() && w.wf(),
                None => !self.has_window(),
            },
    {
        if self.seek >= self.content_frames {
            return None;
        }
        let left: u64 = self.content_frames - self.seek;
        Some(
            Window {
                seek: self.seek,
                size: if left < 3000 {
                    left
                } else {
                    3000
                },
                stride: self.stride,
            },
        )
    }

    /// The tokens that the next window is given as the text before.
    pub open spec fn prompt_tokens(self) -> Seq<u32> {
        self.all_tokens@.skip(self.prompt_reset_since as int)
    }

    /// The text before, for the next window; none where it is empty.
    pub fn prompt(&self) -> (r: Option<Vec<u32>>)
        requires
            self.wf(),
        ensures
            match r {
                Some(p) => p@ == self.prompt_tokens() && p@.len() > 0,
                None => self.prompt_tokens().len() == 0,
            },
    {
        let n: usize = self.all_tokens.len();
        if self.prompt_reset_since == n {
            return None;
        }
        let p = slice_to_vec(&self.all_tokens[self.prompt_reset_since..n]);
        assert(p@ =~= self.prompt_tokens());
        Some(p)
    }

    /// Passes over a window of silence.
    pub fn skip_window(&mut self)
        requires
            old(self).wf(),
            old(self).has_window(),
        ensures
            final(self).wf(),
            final(self).seek == old(self).seek + old(self).window().size,
            final(self).content_frames == old(self).content_frames,
            final(self).stride == old(self).stride,
            final(self).all_tokens == old(self).all_tokens,
            final(self).prompt_len == old(self).prompt_len,
            final(self).prompt_reset_since == old(self).prompt_reset_since,
            final(self).segments == old(self).segments,
    {
        let left: u64 = self.content_frames - self.seek;
        self.seek = self.seek + if left < 3000 {
            left
        } else {
            3000
        };
    }

    /// Takes in the tokens of a window: its segments, their tokens, and where the next window
    /// starts. Where the text before is not wanted, or the window was decoded at a high
    /// temperature, the next windows are not given the text up to here.
    pub fn accept(
        &mut self,
        tokenizer: &Tokenizer,
        ids: &[u32],
        condition_on_previous_text: bool,
        high_temperature: bool,
    )
        requires
            old(self).wf(),
            old(self).has_window(),
            tokenizer.encoding.wf(),
        ensures
            final(self).wf(),
            ({
                let w = old(self).window().model(tokenizer.ts_begin());
                let new = kept(window_segments(*tokenizer, w, ids@));
                &&& models(final(self).segments@) == models(old(self).segments@) + new
                &&& final(self).all_tokens@ == old(self).all_tokens@ + tokens_of(new)
                &&& final(self).seek == next_seek(w, ids@)
            }),
            final(self).prompt_reset_since == (if !condition_on_previous_text || high_temperature {
                final(self).all_tokens@.len()
            } else {
                old(self).prompt_reset_since as nat
            }),
            final(self).content_frames == old(self).content_frames,
            final(self).stride == old(self).stride,
            final(self).prompt_len == old(self).prompt_len,
    {
        let left: u64 = self.content_frames - self.seek;
        let window = Window {
            seek: self.seek,
            size: if left < 3000 {
                left
            } else {
                3000
            },
            stride: self.stride,
        };
        let ghost start = *self;
        assert(window == start.window());
        let (found, next) = cut_window(tokenizer, &window, ids);
        let mut fresh = keep_segments(found);
        let ghost new = models(fresh@);
        let ghost old_models = models(self.segments@);
        proof {
            let w = window.model(tokenizer.ts_begin());
            lemma_kept(window_segments(*tokenizer, w, ids@));
            segments_name_their_window(*tokenizer, w, ids@);
            seek_always_advances(w, ids@);
        }
        let n: usize = fresh.len();
        let mut i: usize = 0;
        assert(old_models + new.take(0) =~= old_models);
        assert(start.all_tokens@ + tokens_of(new.take(0)) =~= start.all_tokens@);
        while i < n
            invariant
                i <= n,
                n == new.len(),
                fresh@.len() == n - i,
                models(fresh@) == new.skip(i as int),
                forall|k: int|
                    0 <= k < new.len() ==> is_kept(#[trigger] new[k]) && new[k].seek == start.seek,
                models(self.segments@) == old_models + new.take(i as int),
                self.all_tokens@ == start.all_tokens@ + tokens_of(new.take(i as int)),
                forall|k: int|
                    0 <= k < self.segments@.len() ==> (#[trigger] self.segments@[k]).id == k,
                forall|k: int|
                    0 <= k < self.segments@.len() ==> is_kept(
                        (#[trigger] self.segments@[k]).model(),
                    ),
                forall|k: int|
                    0 <= k < self.segments@.len() ==> (#[trigger] self.segments@[k]).seek
                        <= start.seek,
                self.content_frames == start.content_frames,
                self.stride == start.stride,
                self.seek == start.seek,
                self.prompt_len == start.prompt_len,
                self.prompt_reset_since == start.prompt_reset_since,
            decreases n - i,
        {
            let ghost before = models(fresh@);
            let ghost had = models(self.segments@);
            let ghost list = fresh@;
            let mut segment = fresh.remove(0);
            proof {
                lemma_models_after_first(list);
                assert(fresh@ =~= list.drop_first());
                assert(models(fresh@) =~= new.skip(i + 1));
            }
            assert(segment.model() == before[0]);
            assert(segment.model() == new[i as int]);
            segment.id = self.segments.len();
            assert(segment.model() == new[i as int]);
            let ghost now = new.take(i + 1);
            assert(now.drop_last() =~= new.take(i as int));
            assert(now.last() == new[i as int]);
            self.all_tokens.extend_from_slice(&segment.tokens);
            assert(self.all_tokens@ =~= start.all_tokens@ + tokens_of(now));
            self.segments.push(segment);
            assert(models(self.segments@) =~= had.push(new[i as int]));
            assert(models(self.segments@) =~= old_models + now);
            i += 1;
        }
        assert(new.take(i as int) =~= new);
        if !condition_on_previous_text || high_temperature {
            self.prompt_reset_since = self.all_tokens.len();
        }
        self.seek = next;
        proof {
            lemma_tokens_of_concatenation(old_models, new);
            assert(self.all_tokens@.skip(self.prompt_len as int) =~= start.all_tokens@.skip(
                start.prompt_len as int,
            ) + tokens_of(new));
        }
    }
}

impl Transcription {
    /// Takes in how a window came out: passes over it where it is silence, else takes in its
    /// tokens. Says whether it was taken in.
    pub fn after_window(
        &mut self,
        tokenizer: &Tokenizer,
        ids: &[u32],
        no_speech: Option<bool>,
        condition_on_previous_text: bool,
        high_temperature: bool,
    ) -> (r: bool)
        requires
            old(self).wf(),
            old(self).has_window(),
            tokenizer.encoding.wf(),
        ensures
            final(self).wf(),
            r == (no_speech != Some(true)),
            final(self).seek > old(self).seek,
            final(self).content_frames == old(self).content_frames,
            final(self).stride == old(self).stride,
            final(self).prompt_len == old(self).prompt_len,
            !r ==> {
                &&& final(self).seek == old(self).seek + old(self).window().size
                &&& final(self).all_tokens == old(self).all_tokens
                &&& final(self).prompt_reset_since == old(self).prompt_reset_since
                &&& final(self).segments == old(self).segments
                &&& forall|i: int|
                    0 <= i < final(self).segments@.len() ==> (
                    #[trigger] final(self).segments@[i]).seek != old(self).seek
            },
            r ==> {
                let w = old(self).window().model(tokenizer.ts_begin());
                let new = kept(window_segments(*tokenizer, w, ids@));
                &&& models(final(self).segments@) == models(old(self).segments@) + new
                &&& final(self).all_tokens@ == old(self).all_tokens@ + tokens_of(new)
                &&& final(self).seek == next_seek(w, ids@)
                &&& final(self).prompt_reset_since == (if !condition_on_previous_text
                    || high_temperature {
                    final(self).all_tokens@.len()
                } else {
                    old(self).prompt_reset_since as nat
                })
            },
    {
        if is_silence(no_speech) {
            self.skip_window();
            false
        } else {
            self.accept(tokenizer, ids, condition_on_previous_text, high_temperature);
            true
        }
    }
}

/// Every segment names the window that it was found in.
pub proof fn segments_name_their_window(t: Tokenizer, w: WindowModel, ids: Seq<u32>)
    ensures
        forall|k: int|
            0 <= k < kept(window_segments(t, w, ids)).len() ==> (#[trigger] kept(
                window_segments(t, w, ids),
            )[k]).seek == w.seek,
{
    let all = window_segments(t, w, ids);
    assert forall|k: int| 0 <= k < all.len() implies (#[trigger] all[k]).seek == w.seek by {
        if pair_cuts(ids, w.ts_begin).len() > 0 {
            let cuts = all_cuts(ids, w.ts_begin);
            lemma_cut_segment(t, w, ids, cuts, 0);
            lemma_cut_segment(t, w, ids, cuts, k);
        }
    }
    lemma_kept_seek(all, w.seek);
}

/// A window that left no segment stays without one: later windows add none that names it.
pub proof fn passed_windows_stay_empty(
    segments: Seq<SegmentModel>,
    passed: int,
    t: Tokenizer,
    w: WindowModel,
    ids: Seq<u32>,
)
    requires
        passed < w.seek,
        forall|k: int| 0 <= k < segments.len() ==> (#[trigger] segments[k]).seek != passed,
    ensures
        ({
            let all = segments + kept(window_segments(t, w, ids));
            forall|k: int| 0 <= k < all.len() ==> (#[trigger] all[k]).seek != passed
        }),
{
    segments_name_their_window(t, w, ids);
    let new = kept(window_segments(t, w, ids));
    let all = segments + new;
    assert forall|k: int| 0 <= k < all.len() implies (#[trigger] all[k]).seek != passed by {
        if k < segments.len() {
            assert(all[k] == segments[k]);
        } else {
            assert(all[k] == new[k - segments.len()]);
        }
    }
}

/// What is kept comes from where all come from.
proof fn lemma_kept_seek(segments: Seq<SegmentModel>, seek: int)
    requires
        forall|k: int| 0 <= k < segments.len() ==> (#[trigger] segments[k]).seek == seek,
    ensures
        forall|k: int|
            0 <= k < kept(segments).len() ==> (#[trigger] kept(segments)[k]).seek == seek,
    decreases segments.len(),
{
    if segments.len() > 0 {
        let before = segments.drop_last();
        assert(forall|k: int| 0 <= k < before.len() ==> #[trigger] before[k] == segments[k]);
        lemma_kept_seek(before, seek);
        assert(segments[segments.len() - 1].seek == seek);
        assert forall|k: int| 0 <= k < kept(segments).len() implies (#[trigger] kept(
            segments,
        )[k]).seek == seek by {
            if k < kept(before).len() {
                assert(kept(segments)[k] == kept(before)[k]);
            }
        }
    }
}

/// What is kept is worth keeping.
proof fn lemma_kept(segments: Seq<SegmentModel>)
    ensures
        forall|k: int| 0 <= k < kept(segments).len() ==> is_kept(#[trigger] kept(segments)[k]),
    decreases segments.len(),
{
    if segments.len() > 0 {
        lemma_kept(segments.drop_last());
        let before = kept(segments.drop_last());
        assert forall|k: int| 0 <= k < kept(segments).len() implies is_kept(
            #[trigger] kept(segments)[k],
        ) by {
            if k < before.len() {
                assert(kept(segments)[k] == before[k]);
            }
        }
    }
}

/// The tokens of segments behind others are behind the tokens of those.
proof fn lemma_tokens_of_concatenation(a: Seq<SegmentModel>, b: Seq<SegmentModel>)
    ensures
        tokens_of(a + b) == tokens_of(a) + tokens_of(b),
    decreases b.len(),
{
    if b.len() == 0 {
        assert(a + b =~= a);
        assert(tokens_of(a) + tokens_of(b) =~= tokens_of(a));
    } else {
        assert((a + b).drop_last() =~= a + b.drop_last());
        lemma_tokens_of_concatenation(a, b.drop_last());
        assert(tokens_of(a + b) =~= tokens_of(a) + tokens_of(b));
    }
}

/// A transcript.
pub struct TranscribeResult {
    pub text: String,
    pub segments: Vec<Segment>,
    pub language: String,
}

/// How to transcribe.
pub struct TranscribeOptions {
    /// The language; by default it is detected.
    pub language: Option<String>,
    pub task: String,
    /// Whether a window is given the text of the windows before it.
    pub condition_on_previous_text: bool,
    /// A text that the first window is given as the text before.
    pub initial_prompt: Option<String>,
    /// Whether no blank is allowed as the first token.
    pub suppress_blank: bool,
    /// The tokens that are never allowed.
    pub suppress_tokens: Option<String>,
    pub without_timestamps: bool,
    /// Whether to tell what is decoded.
    pub verbose: bool,
    /// The number of encoder positions to use; by default all of them.
    pub audio_ctx: Option<usize>,
}

impl Default for TranscribeOptions {
    fn default() -> (r: Self)
        ensures
            r.language is None,
            r.task@ == "transcribe"@,
            r.condition_on_previous_text,
            r.initial_prompt is None,
            r.suppress_blank,
            r.suppress_tokens matches Some(s) && s@ == "-1"@,
            !r.without_timestamps,
            !r.verbose,
            r.audio_ctx is None,
    {
        TranscribeOptions {
            language: None,
            task: "transcribe".to_owned(),
            condition_on_previous_text: true,
            initial_prompt: None,
            suppress_blank: true,
            suppress_tokens: Some("-1".to_owned()),
            without_timestamps: false,
            verbose: false,
            audio_ctx: None,
        }
    }
}

impl TranscribeOptions {
    /// The options that a window is decoded with.
    pub fn window_options(
        &self,
        language: &str,
        prompt: Option<Vec<u32>>,
    ) -> (r: DecodingOptions)
        ensures
            r.task@ == self.task@,
            r.language matches Some(l) && l@ == language@,
            r.sample_len is None,
            r.suppress_blank == self.suppress_blank,
            match (r.suppress_tokens, self.suppress_tokens) {
                (Some(a), Some(b)) => a@ == b@,
                (None, None) => true,
                _ => false,
            },
            r.without_timestamps == self.without_timestamps,
            r.max_initial_timestamp == Some(1_000_000u64),
            r.prompt == prompt,
            r.audio_ctx == self.audio_ctx,
    {
        DecodingOptions {
            task: self.task.clone(),
            language: Some(language.to_owned()),
            sample_len: None,
            suppress_blank: self.suppress_blank,
            suppress_tokens: match &self.suppress_tokens {
                Some(s) => Some(s.clone()),
                None => None,
            },
            without_timestamps: self.without_timestamps,
            max_initial_timestamp: Some(1_000_000),
            prompt,
            audio_ctx: self.audio_ctx,
        }
    }
}

impl Transcription {
    /// The transcript: its segments, and the text of all tokens but those of the initial prompt.
    pub fn finish(self, tokenizer: &Tokenizer, language: String) -> (r: TranscribeResult)
        requires
            self.wf(),
        ensures
            r.text@ == plain_text(*tokenizer, tokens_of(models(self.segments@))),
            r.segments == self.segments,
            r.language == language,
    {
        let n: usize = self.all_tokens.len();
        let spoken = &self.all_tokens[self.prompt_len..n];
        assert(spoken@ =~= self.all_tokens@.skip(self.prompt_len as int));
        let text = decode_plain(tokenizer, spoken);
        TranscribeResult { text, segments: self.segments, language }
    }
}

/// The tokens of an initial prompt: its text behind a space, white space at its ends left out.
pub fn initial_prompt_tokens(tokenizer: &Tokenizer, prompt: Option<&str>) -> (r: Vec<u32>)
    ensures
        r@ == (match prompt {
            Some(p) => ids_of_text(
                spaced(trimmed(p@, TrimSet::White)),
                tokenizer.encoding.encoder@,
            ),
            None => seq![],
        }),
{
    match prompt {
        Some(p) => {
            let chars = chars_of(p);
            let bare = trim(&chars, TrimSet::White);
            let mut text: Vec<char> = Vec::new();
            text.push(' ');
            text.extend_from_slice(bare);
            assert(text@ =~= spaced(trimmed(p@, TrimSet::White)));
            tokenizer.encode(string_of(&text).as_str())
        },
        None => {
            let r: Vec<u32> = Vec::new();
            assert(r@ =~= seq![]);
            r
        },
    }
}

/// The frames of every window lie within the spectrogram, which holds a window of silence behind the
/// audio: as many frames as a window has, whatever is left of the audio.
pub proof fn windows_lie_within_the_spectrogram(t: Transcription, mel_frames: int)
    requires
        t.wf(),
        t.has_window(),
        t.content_frames == (if mel_frames > N_FRAMES {
            mel_frames - N_FRAMES
        } else {
            0
        }),
    ensures
        0 <= t.window().seek,
        t.window().seek + N_FRAMES <= mel_frames,
        t.window().seek + t.window().size <= t.content_frames,
{
}

/// The next window starts later than this one.
pub proof fn seek_always_advances(w: WindowModel, ids: Seq<u32>)
    requires
        w.size > 0,
    ensures
        next_seek(w, ids) > w.seek,
{
}

/// The next window starts at a frame on the grid of timestamps of this one, or right behind it.
pub proof fn seek_follows_timestamps(w: WindowModel, ids: Seq<u32>)
    requires
        w.size > 0,
        w.stride >= 0,
    ensures
        next_seek(w, ids) == w.seek + w.size || exists|t: int|
            t >= 0 && next_seek(w, ids) == w.seek + #[trigger] (t * w.stride),
{
    let cuts = pair_cuts(ids, w.ts_begin);
    if cuts.len() > 0 && !single_ending(ids, w.ts_begin) {
        let t = stamp(ids[cuts.last() - 1], w.ts_begin);
        if t * w.stride > 0 {
            assert(next_seek(w, ids) == w.seek + t * w.stride);
        }
    }
}

/// A window without a pair of timestamps is one segment that holds all its tokens; with pairs, the
/// segments hold the tokens up to the last cut, in order.
pub proof fn segments_hold_the_tokens(t: Tokenizer, w: WindowModel, ids: Seq<u32>)
    ensures
        ({
            let cuts = all_cuts(ids, w.ts_begin);
            tokens_of(window_segments(t, w, ids)) == (if pair_cuts(ids, w.ts_begin).len() > 0 {
                ids.take(cuts.last())
            } else {
                ids
            })
        }),
{
    let pairs = pair_cuts(ids, w.ts_begin);
    let cuts = all_cuts(ids, w.ts_begin);
    lemma_pair_cuts(ids, w.ts_begin);
    if pairs.len() > 0 {
        assert forall|i: int| 0 <= i < cuts.len() implies 0 <= #[trigger] cuts[i] <= ids.len() by {
            if i < pairs.len() {
                assert(cuts[i] == pairs[i]);
            }
        }
        assert forall|i: int, j: int| 0 <= i < j < cuts.len() implies #[trigger] cuts[i]
            <= #[trigger] cuts[j] by {
            assert(cuts[i] == pairs[i]);
            if j < pairs.len() {
                assert(cuts[j] == pairs[j]);
            }
        }
        lemma_cut_tokens(t, w, ids, cuts);
    } else {
        let whole = window_segments(t, w, ids);
        assert(whole.drop_last() =~= Seq::<SegmentModel>::empty());
        assert(tokens_of(whole.drop_last()) =~= Seq::<u32>::empty());
        assert(tokens_of(whole) =~= ids);
    }
}

proof fn lemma_cut_tokens(t: Tokenizer, w: WindowModel, ids: Seq<u32>, cuts: Seq<int>)
    requires
        forall|i: int| 0 <= i < cuts.len() ==> 0 <= #[trigger] cuts[i] <= ids.len(),
        forall|i: int, j: int| 0 <= i < j < cuts.len() ==> #[trigger] cuts[i] <= #[trigger] cuts[j],
    ensures
        tokens_of(cut_segments(t, w, ids, cuts)) == ids.take(
            if cuts.len() == 0 {
                0
            } else {
                cuts.last()
            },
        ),
    decreases cuts.len(),
{
    let all = cut_segments(t, w, ids, cuts);
    if cuts.len() == 0 {
        assert(tokens_of(all) =~= ids.take(0));
    } else {
        let before = cuts.drop_last();
        assert forall|i: int| 0 <= i < before.len() implies 0 <= #[trigger] before[i]
            <= ids.len() by {
            assert(before[i] == cuts[i]);
        }
        assert forall|i: int, j: int| 0 <= i < j < before.len() implies #[trigger] before[i]
            <= #[trigger] before[j] by {
            assert(before[i] == cuts[i] && before[j] == cuts[j]);
        }
        lemma_cut_tokens(t, w, ids, before);
        let from = if cuts.len() == 1 {
            0
        } else {
            cuts[cuts.len() - 2]
        };
        let to = cuts.last();
        assert(cuts[cuts.len() - 1] == to);
        assert(all.drop_last() =~= cut_segments(t, w, ids, before));
        assert(ids.take(from) + ids.subrange(from, to) =~= ids.take(to));
    }
}

// The order of segments.

/// Whether the timestamps of a list do not go back.
pub open spec fn stamps_rise(ids: Seq<u32>, ts_begin: u32) -> bool {
    forall|i: int, j: int|
        0 <= i < j < ids.len() && #[trigger] ids[i] >= ts_begin && #[trigger] ids[j] >= ts_begin
            ==> ids[i] <= ids[j]
}

/// At every cut, and right before it, stands a timestamp.
proof fn lemma_cuts_lie_between_stamps(ids: Seq<u32>, ts_begin: u32)
    ensures
        forall|k: int|
            0 <= k < pair_cuts(ids, ts_begin).len() ==> ids[#[trigger] pair_cuts(ids, ts_begin)[k]]
                >= ts_begin && ids[pair_cuts(ids, ts_begin)[k] - 1] >= ts_begin,
    decreases ids.len(),
{
    lemma_pair_cuts(ids, ts_begin);
    if ids.len() >= 2 {
        let before = pair_cuts(ids.drop_last(), ts_begin);
        let now = pair_cuts(ids, ts_begin);
        lemma_cuts_lie_between_stamps(ids.drop_last(), ts_begin);
        lemma_pair_cuts(ids.drop_last(), ts_begin);
        assert forall|k: int| 0 <= k < now.len() implies ids[#[trigger] now[k]] >= ts_begin
            && ids[now[k] - 1] >= ts_begin by {
            if k < before.len() {
                assert(now[k] == before[k]);
                assert(ids.drop_last()[before[k]] == ids[now[k]]);
            }
        }
    }
}

/// Segment `k` of tokens that are cut.
proof fn lemma_cut_segment(t: Tokenizer, w: WindowModel, ids: Seq<u32>, cuts: Seq<int>, k: int)
    requires
        0 <= k < cuts.len(),
    ensures
        cut_segments(t, w, ids, cuts).len() == cuts.len(),
        cut_segments(t, w, ids, cuts)[k] == timed_segment(
            t,
            w,
            ids.subrange(
                if k == 0 {
                    0
                } else {
                    cuts[k - 1]
                },
                cuts[k],
            ),
        ),
    decreases cuts.len(),
{
    let before = cuts.drop_last();
    if k < before.len() {
        lemma_cut_segment(t, w, ids, before, k);
    } else if before.len() > 0 {
        lemma_cut_segment(t, w, ids, before, 0);
    } else {
        assert(cut_segments(t, w, ids, before).len() == 0);
    }
}

/// A later timestamp is no earlier time.
proof fn lemma_times_rise(a: int, b: int, stride: int)
    by (nonlinear_arith)
    requires
        a <= b,
        stride >= 0,
    ensures
        a * stride <= b * stride,
{
}

/// Where the timestamps of a window do not go back, its segments are in order: none ends before it
/// starts, and none starts before the end of one that stands before it.
pub proof fn segments_are_in_order(t: Tokenizer, w: WindowModel, ids: Seq<u32>)
    requires
        stamps_rise(ids, w.ts_begin),
        w.stride >= 0,
        w.size >= 0,
    ensures
        ({
            let s = window_segments(t, w, ids);
            &&& forall|k: int| 0 <= k < s.len() ==> w.seek <= (#[trigger] s[k]).start <= s[k].end
            &&& forall|a: int, b: int|
                0 <= a < b < s.len() ==> (#[trigger] s[a]).end <= (#[trigger] s[b]).start
        }),
{
    let ts = w.ts_begin;
    let pairs = pair_cuts(ids, ts);
    let s = window_segments(t, w, ids);
    if pairs.len() > 0 {
        let cuts = all_cuts(ids, ts);
        lemma_pair_cuts(ids, ts);
        lemma_cuts_lie_between_stamps(ids, ts);
        assert forall|k: int| 0 <= k < pairs.len() implies #[trigger] cuts[k] == pairs[k] by {}
        lemma_cut_segment(t, w, ids, cuts, 0);
        assert forall|k: int| 0 <= k < s.len() implies w.seek <= (#[trigger] s[k]).start
            <= s[k].end by {
            lemma_segment_times(t, w, ids, k);
        }
        assert forall|a: int, b: int| 0 <= a < b < s.len() implies (#[trigger] s[a]).end
            <= (#[trigger] s[b]).start by {
            lemma_segment_times(t, w, ids, a);
            lemma_segment_times(t, w, ids, b);
            assert(cuts[a] == pairs[a] && cuts[b - 1] == pairs[b - 1]);
            assert(cuts[a] <= cuts[b - 1]);
            let x = ids[cuts[a] - 1];
            let y = ids[cuts[b - 1]];
            assert(x <= y);
            lemma_times_rise(stamp(x, ts), stamp(y, ts), w.stride);
        }
    } else {
        match final_stamp(ids, ts) {
            Some(x) => {
                lemma_final_stamp(ids, ts);
                lemma_times_rise(0, x - ts, w.stride);
            },
            None => {},
        }
    }
}

proof fn lemma_final_stamp(ids: Seq<u32>, ts_begin: u32)
    ensures
        final_stamp(ids, ts_begin) matches Some(x) ==> x >= ts_begin && ids.contains(x),
    decreases ids.len(),
{
    if ids.len() > 0 {
        if ids.last() >= ts_begin {
            assert(ids[ids.len() - 1] == ids.last());
        } else {
            lemma_final_stamp(ids.drop_last(), ts_begin);
            if let Some(x) = final_stamp(ids.drop_last(), ts_begin) {
                let k = choose|k: int| 0 <= k < ids.drop_last().len() && ids.drop_last()[k] == x;
                assert(ids[k] == x);
            }
        }
    }
}

/// When segment `k` of a window with pairs of timestamps starts and ends.
proof fn lemma_segment_times(t: Tokenizer, w: WindowModel, ids: Seq<u32>, k: int)
    requires
        stamps_rise(ids, w.ts_begin),
        w.stride >= 0,
        pair_cuts(ids, w.ts_begin).len() > 0,
        0 <= k < all_cuts(ids, w.ts_begin).len(),
    ensures
        ({
            let cuts = all_cuts(ids, w.ts_begin);
            let s = window_segments(t, w, ids)[k];
            &&& window_segments(t, w, ids).len() == cuts.len()
            &&& 1 <= cuts[k] <= ids.len()
            &&& ids[cuts[k] - 1] >= w.ts_begin
            &&& s.end == w.seek + stamp(ids[cuts[k] - 1], w.ts_begin) * w.stride
            &&& k > 0 ==> 0 <= cuts[k - 1] < cuts[k] && ids[cuts[k - 1]] >= w.ts_begin && s.start
                == w.seek + stamp(ids[cuts[k - 1]], w.ts_begin) * w.stride
            &&& w.seek <= s.start <= s.end
        }),
{
    let ts = w.ts_begin;
    let pairs = pair_cuts(ids, ts);
    let cuts = all_cuts(ids, ts);
    lemma_pair_cuts(ids, ts);
    lemma_cuts_lie_between_stamps(ids, ts);
    lemma_cut_segment(t, w, ids, cuts, k);
    if k < pairs.len() {
        assert(cuts[k] == pairs[k]);
    }
    if k > 0 {
        assert(cuts[k - 1] == pairs[k - 1]);
    }
    let from = if k == 0 {
        0
    } else {
        cuts[k - 1]
    };
    let part = ids.subrange(from, cuts[k]);
    assert(part[0] == ids[from]);
    assert(part.last() == ids[cuts[k] - 1]);
    if ids[from] >= ts && from < cuts[k] - 1 {
        assert(ids[from] <= ids[cuts[k] - 1]);
    }
    lemma_times_rise(0, stamp(ids[from], ts), w.stride);
    lemma_times_rise(stamp(ids[from], ts), stamp(ids[cuts[k] - 1], ts), w.stride);
}

/// Where, besides, no timestamp lies behind the end of the window, no segment ends after the start
/// of the next window.
pub proof fn segments_end_before_the_next_window(t: Tokenizer, w: WindowModel, ids: Seq<u32>)
    requires
        stamps_rise(ids, w.ts_begin),
        w.stride >= 0,
        w.size >= 0,
        forall|i: int|
            0 <= i < ids.len() ==> stamp(#[trigger] ids[i], w.ts_begin) * w.stride <= w.size,
    ensures
        forall|k: int|
            0 <= k < window_segments(t, w, ids).len() ==> (#[trigger] window_segments(
                t,
                w,
                ids,
            )[k]).end <= next_seek(w, ids),
{
    let ts = w.ts_begin;
    let pairs = pair_cuts(ids, ts);
    let s = window_segments(t, w, ids);
    if pairs.len() > 0 {
        let cuts = all_cuts(ids, ts);
        lemma_pair_cuts(ids, ts);
        lemma_cuts_lie_between_stamps(ids, ts);
        lemma_cut_segment(t, w, ids, cuts, 0);
        assert forall|k: int| 0 <= k < s.len() implies (#[trigger] s[k]).end <= next_seek(
            w,
            ids,
        ) by {
            lemma_segment_times(t, w, ids, k);
            assert(stamp(ids[cuts[k] - 1], ts) * w.stride <= w.size);
            if !single_ending(ids, ts) {
                assert(cuts[k] == pairs[k]);
                assert(cuts[k] <= pairs.last());
                assert(ids[cuts[k] - 1] <= ids[pairs.last() - 1]);
                lemma_times_rise(
                    stamp(ids[cuts[k] - 1], ts),
                    stamp(ids[pairs.last() - 1], ts),
                    w.stride,
                );
            }
        }
    } else {
        lemma_final_stamp(ids, ts);
        if let Some(x) = final_stamp(ids, ts) {
            let k = choose|k: int| 0 <= k < ids.len() && ids[k] == x;
            assert(stamp(ids[k], ts) * w.stride <= w.size);
        }
    }
}

/// Whether segments lie one after the other between two times.
pub open spec fn in_order(segments: Seq<SegmentModel>, from: int, to: int) -> bool {
    &&& forall|k: int|
        0 <= k < segments.len() ==> from <= (#[trigger] segments[k]).start <= segments[k].end <= to
    &&& forall|a: int, b: int|
        0 <= a < b < segments.len() ==> (#[trigger] segments[a]).end <= (
        #[trigger] segments[b]).start
}

/// Segments that are kept lie one after the other where all do.
proof fn lemma_kept_in_order(segments: Seq<SegmentModel>, from: int, to: int)
    requires
        in_order(segments, from, to),
    ensures
        in_order(kept(segments), from, to),
    decreases segments.len(),
{
    if segments.len() > 0 {
        let before = segments.drop_last();
        let last = segments.last();
        assert(last == segments[segments.len() - 1]);
        assert forall|k: int| 0 <= k < before.len() implies from <= (#[trigger] before[k]).start
            <= before[k].end <= last.start by {
            assert(before[k] == segments[k]);
        }
        assert(in_order(before, from, last.start)) by {
            assert forall|a: int, b: int| 0 <= a < b < before.len() implies (
            #[trigger] before[a]).end <= (#[trigger] before[b]).start by {
                assert(before[a] == segments[a] && before[b] == segments[b]);
            }
        }
        lemma_kept_in_order(before, from, last.start);
        let some = kept(before);
        let now = kept(segments);
        assert forall|k: int| 0 <= k < now.len() implies from <= (#[trigger] now[k]).start
            <= now[k].end <= to by {
            if k < some.len() {
                assert(now[k] == some[k]);
            }
        }
        assert forall|a: int, b: int| 0 <= a < b < now.len() implies (#[trigger] now[a]).end <= (
        #[trigger] now[b]).start by {
            assert(now[a] == some[a]);
            if b < some.len() {
                assert(now[b] == some[b]);
            }
        }
    }
}

/// A transcript stays in order: where its segments lie one after the other up to a window, and the
/// timestamps of the window do not go back and lie within it, the segments lie one after the other
/// up to the next window.
pub proof fn transcripts_stay_in_order(
    t: Tokenizer,
    segments: Seq<SegmentModel>,
    w: WindowModel,
    ids: Seq<u32>,
)
    requires
        in_order(segments, 0, w.seek),
        0 <= w.seek,
        stamps_rise(ids, w.ts_begin),
        w.stride >= 0,
        w.size >= 0,
        forall|i: int|
            0 <= i < ids.len() ==> stamp(#[trigger] ids[i], w.ts_begin) * w.stride <= w.size,
    ensures
        in_order(segments + kept(window_segments(t, w, ids)), 0, next_seek(w, ids)),
{
    let new = window_segments(t, w, ids);
    let next = next_seek(w, ids);
    segments_are_in_order(t, w, ids);
    segments_end_before_the_next_window(t, w, ids);
    assert(in_order(new, w.seek, next));
    lemma_kept_in_order(new, w.seek, next);
    let fresh = kept(new);
    let all = segments + fresh;
    assert forall|k: int| 0 <= k < all.len() implies 0 <= (#[trigger] all[k]).start <= all[k].end
        <= next by {
        if k < segments.len() {
            assert(all[k] == segments[k]);
        } else {
            assert(all[k] == fresh[k - segments.len()]);
        }
    }
    assert forall|a: int, b: int| 0 <= a < b < all.len() implies (#[trigger] all[a]).end <= (
    #[trigger] all[b]).start by {
        if a < segments.len() {
            assert(all[a] == segments[a]);
        } else {
            assert(all[a] == fresh[a - segments.len()]);
        }
        if b < segments.len() {
            assert(all[b] == segments[b]);
        } else {
            assert(all[b] == fresh[b - segments.len()]);
        }
    }
}

/// The timestamps of a window that was decoded under the timestamp rules do not go back.
pub proof fn decoded_timestamps_rise(
    s: DecodeSession,
    layout: StampLayout,
    max_index: Option<usize>,
    ts_begin: u32,
)
    requires
        s.wf(),
        layout.ts_begin == ts_begin,
        obeys_rules(s.tokens@, s.sample_begin as int, layout, max_index),
    ensures
        stamps_rise(up_to(s.sampled_tokens(), s.eot), ts_begin),
{
    let ids = up_to(s.sampled_tokens(), s.eot);
    let b = s.sample_begin as int;
    up_to_holds_no_stop(s.sampled_tokens(), s.eot);
    assert forall|i: int, j: int|
        0 <= i < j < ids.len() && #[trigger] ids[i] >= ts_begin && #[trigger] ids[j]
            >= ts_begin implies ids[i] <= ids[j] by {
        assert(ids[i] == s.tokens@[b + i] && ids[j] == s.tokens@[b + j]);
        timestamps_rise(s.tokens@, b, layout, max_index, b + i, b + j);
    }
}

/// The first window is given the initial prompt, whether or not windows are given the text before
/// them: what is accepted later decides over later windows only.
pub proof fn first_window_is_given_the_prompt(t: Transcription)
    requires
        t.wf(),
        t.prompt_reset_since == 0,
        t.segments@.len() == 0,
    ensures
        t.prompt_tokens() == t.all_tokens@,
        t.prompt_tokens() == t.all_tokens@.take(t.prompt_len as int),
{
    assert(models(t.segments@) =~= Seq::<SegmentModel>::empty());
    assert(t.all_tokens@.skip(t.prompt_len as int).len() == 0);
    assert(t.prompt_tokens() =~= t.all_tokens@);
    assert(t.all_tokens@.take(t.prompt_len as int) =~= t.all_tokens@);
}

// Retrying at higher temperatures.

/// Whether a window is to be decoded again: it repeats itself or is unlikely, and is no silence.
/// Each is `None` where it is not asked for.
pub open spec fn needs_fallback(
    repetitive: Option<bool>,
    unlikely: Option<bool>,
    no_speech: Option<bool>,
) -> bool {
    (repetitive == Some(true) || unlikely == Some(true)) && no_speech != Some(true)
}

/// The attempts at a window, one for each temperature of a schedule.
pub struct Fallback {
    /// The number of temperatures.
    pub count: usize,
    /// The number of attempts made.
    pub attempts: usize,
    /// Whether the last attempt is good enough.
    pub settled: bool,
    /// Whether each attempt was to be made again.
    pub history: Ghost<Seq<bool>>,
}

impl Fallback {
    /// All attempts but the last were to be made again, and the last one was not if and only if
    /// it is good enough.
    pub open spec fn wf(self) -> bool {
        &&& self.attempts <= self.count
        &&& self.history@.len() == self.attempts
        &&& forall|i: int| 0 <= i < self.attempts - 1 ==> #[trigger] self.history@[i]
        &&& self.settled == (self.attempts > 0 && !self.history@[self.attempts - 1])
    }

    /// Starts with a schedule of `count` temperatures.
    pub fn new(count: usize) -> (r: Self)
        ensures
            r.wf(),
            r.count == count,
            r.attempts == 0,
            r.history@ == Seq::<bool>::empty(),
    {
        Fallback { count, attempts: 0, settled: false, history: Ghost(Seq::empty()) }
    }

    /// The temperature to try next, where another attempt is to be made.
    pub fn next_attempt(&self) -> (r: Option<usize>)
        requires
            self.wf(),
        ensures
            r == (if self.settled || self.attempts == self.count {
                None
            } else {
                Some(self.attempts)
            }),
    {
        if self.settled || self.attempts == self.count {
            None
        } else {
            Some(self.attempts)
        }
    }

    /// Takes in how an attempt came out.
    pub fn record(
        &mut self,
        repetitive: Option<bool>,
        unlikely: Option<bool>,
        no_speech: Option<bool>,
    )
        requires
            old(self).wf(),
            !old(self).settled,
            old(self).attempts < old(self).count,
        ensures
            final(self).wf(),
            final(self).count == old(self).count,
            final(self).attempts == old(self).attempts + 1,
            final(self).history@ == old(self).history@.push(
                needs_fallback(repetitive, unlikely, no_speech),
            ),
            final(self).settled == !needs_fallback(repetitive, unlikely, no_speech),
    {
        let again = match no_speech {
            Some(true) => false,
            _ => match repetitive {
                Some(true) => true,
                _ => match unlikely {
                    Some(true) => true,
                    _ => false,
                },
            },
        };
        let ghost before = self.history@;
        self.attempts = self.attempts + 1;
        self.settled = !again;
        self.history = Ghost(before.push(again));
    }

    /// The attempt that counts: the last one made. None where the schedule is empty.
    pub fn result(&self) -> (r: Option<usize>)
        requires
            self.wf(),
        ensures
            r == (if self.attempts == 0 {
                None
            } else {
                Some((self.attempts - 1) as usize)
            }),
    {
        if self.attempts == 0 {
            None
        } else {
            Some(self.attempts - 1)
        }
    }
}

/// When no further attempt is to be made, the attempt that counts is the first that was not to be
/// made again; where all were, it is the last of the schedule; and there is none only if the
/// schedule is empty.
pub proof fn the_first_good_attempt_counts(f: Fallback)
    requires
        f.wf(),
        f.settled || f.attempts == f.count,
    ensures
        f.attempts == 0 <==> f.count == 0,
        f.settled ==> !f.history@[f.attempts - 1] && forall|i: int|
            0 <= i < f.attempts - 1 ==> #[trigger] f.history@[i],
        !f.settled ==> f.attempts == f.count && forall|i: int|
            0 <= i < f.count ==> #[trigger] f.history@[i],
{
}

/// Silence is never decoded again.
pub proof fn silence_is_not_retried(repetitive: Option<bool>, unlikely: Option<bool>)
    ensures
        !needs_fallback(repetitive, unlikely, Some(true)),
{
}

/// Whether a window is silence, and passed over: it is likely to hold no speech, where that is asked
/// for.
pub fn is_silence(no_speech: Option<bool>) -> (r: bool)
    ensures
        r == (no_speech == Some(true)),
{
    match no_speech {
        Some(silent) => silent,
        None => false,
    }
}

// Languages.

/// Where the language of a transcript comes from.
#[derive(Clone, Copy, Debug, PartialEq, Eq, Structural)]
pub enum LanguageSource {
    /// It is given.
    Given,
    /// The model knows English only.
    English,
    /// It is detected.
    Detected,
}

/// Where the language of a transcript comes from.
pub fn language_source(given: bool, multilingual: bool) -> (r: LanguageSource)
    ensures
        r == (if given {
            LanguageSource::Given
        } else if !multilingual {
            LanguageSource::English
        } else {
            LanguageSource::Detected
        }),
{
    if given {
        LanguageSource::Given
    } else if !multilingual {
        LanguageSource::English
    } else {
        LanguageSource::Detected
    }
}

/// The language that a model takes all speech for, without a look at it: English where it knows no
/// other language, and none where it is multilingual.
pub fn undetected_language(multilingual: bool) -> (r: Option<String>)
    ensures
        match r {
            Some(code) => !multilingual && code@ == "en"@,
            None => multilingual,
        },
{
    if multilingual {
        None
    } else {
        Some("en".to_owned())
    }
}

/// A mask over `n_vocab` tokens that suppresses all but `language_tokens`.
pub fn language_mask(language_tokens: &[u32], n_vocab: usize) -> (r: Vec<bool>)
    ensures
        r@.len() == n_vocab,
        forall|i: int|
            0 <= i < r@.len() ==> (#[trigger] r@[i] <==> !names_token(language_tokens@, i)),
{
    let open = build_mask(language_tokens, n_vocab);
    let mut r: Vec<bool> = Vec::new();
    let mut i: usize = 0;
    while i < n_vocab
        invariant
            i <= n_vocab == open@.len(),
            r@.len() == i,
            masks_ids(open@, language_tokens@),
            forall|j: int|
                0 <= j < r@.len() ==> (#[trigger] r@[j] <==> !names_token(language_tokens@, j)),
        decreases n_vocab - i,
    {
        assert(open@[i as int] <==> names_token(language_tokens@, i as int));
        r.push(!open[i]);
        i += 1;
    }
    r
}

/// The keys of the language tokens among those of all tokens; 0 for a token that has none.
pub fn language_keys(language_tokens: &[u32], keys: &[u32]) -> (r: Vec<u32>)
    ensures
        r@.len() == language_tokens@.len(),
        forall|i: int|
            0 <= i < r@.len() ==> #[trigger] r@[i] == (if language_tokens@[i] < keys@.len() {
                keys@[language_tokens@[i] as int]
            } else {
                0
            }),
{
    let mut r: Vec<u32> = Vec::new();
    let mut i: usize = 0;
    while i < language_tokens.len()
        invariant
            i <= language_tokens@.len(),
            r@.len() == i,
            forall|j: int|
                0 <= j < r@.len() ==> #[trigger] r@[j] == (if language_tokens@[j] < keys@.len() {
                    keys@[language_tokens@[j] as int]
                } else {
                    0
                }),
        decreases language_tokens@.len() - i,
    {
        let token: u32 = language_tokens[i];
        r.push(
            if (token as u64) < keys.len() as u64 {
                keys[token as usize]
            } else {
                0
            },
        );
        i += 1;
    }
    r
}

/// Whether `i` is the place of the largest of the keys: larger than 0, and the first such one.
pub open spec fn is_best(keys: Seq<u32>, i: int) -> bool {
    &&& 0 <= i < keys.len()
    &&& keys[i] > 0
    &&& forall|j: int| 0 <= j < keys.len() ==> #[trigger] keys[j] <= keys[i]
    &&& forall|j: int| 0 <= j < i ==> #[trigger] keys[j] < keys[i]
}

/// The likeliest language: the code whose key is the largest, the first of them; English where all
/// keys are 0. A key stands for a probability: larger for a larger one, and 0 for 0.
pub fn best_language(codes: &Vec<String>, keys: &Vec<u32>) -> (r: String)
    requires
        codes@.len() == keys@.len(),
    ensures
        if exists|i: int| is_best(keys@, i) {
            exists|i: int| #[trigger] is_best(keys@, i) && r@ == codes@[i]@
        } else {
            r@ == "en"@
        },
{
    let mut best: Option<usize> = None;
    let mut top: u32 = 0;
    let mut i: usize = 0;
    while i < keys.len()
        invariant
            i <= keys@.len(),
            match best {
                Some(b) => is_best(keys@.take(i as int), b as int) && top == keys@[b as int],
                None => top == 0 && forall|j: int| 0 <= j < i ==> #[trigger] keys@[j] == 0,
            },
        decreases keys@.len() - i,
    {
        let ghost before = keys@.take(i as int);
        let ghost now = keys@.take(i + 1);
        assert(now =~= before.push(keys@[i as int]));
        if keys[i] > top {
            proof {
                assert forall|j: int| 0 <= j < i implies #[trigger] now[j] < keys@[i as int] by {
                    assert(now[j] == keys@[j]);
                    if best is Some {
                        assert(before[j] <= top);
                    }
                }
            }
            top = keys[i];
            best = Some(i);
            assert(is_best(now, i as int));
        } else {
            proof {
                if let Some(b) = best {
                    assert forall|j: int| 0 <= j < now.len() implies #[trigger] now[j]
                        <= now[b as int] by {
                        if j < i {
                            assert(before[j] <= before[b as int]);
                        }
                    }
                    assert forall|j: int| 0 <= j < b implies #[trigger] now[j]
                        < now[b as int] by {
                        assert(before[j] < before[b as int]);
                    }
                    assert(is_best(now, b as int));
                }
            }
        }
        i += 1;
    }
    assert(keys@.take(i as int) =~= keys@);
    match best {
        Some(b) => codes[b].clone(),
        None => {
            assert forall|k: int| !is_best(keys@, k) by {
                if 0 <= k < keys@.len() {
                    assert(keys@[k] == 0);
                }
            }
            "en".to_owned()
        },
    }
}

/// There is only one best place.
pub proof fn best_is_unique(keys: Seq<u32>, i: int, j: int)
    requires
        is_best(keys, i),
        is_best(keys, j),
    ensures
        i == j,
{
}

/// A text whose first letter, where it is a small one of ASCII, is a capital.
pub open spec fn capitalized(s: Seq<char>) -> Seq<char> {
    if s.len() > 0 && 'a' <= s[0] <= 'z' {
        s.update(0, (s[0] as u8 - 32) as char)
    } else {
        s
    }
}

/// How a language is called: by its English name, or by its code where that is in no table.
pub fn language_label(code: &str) -> (r: String)
    ensures
        r@ == capitalized(
            match index_in(first_codes(LANGUAGE_COUNT as nat), code@) {
                Some(i) => name_at(i as int),
                None => code@,
            },
        ),
{
    let name = match find_code(code, LANGUAGE_COUNT) {
        Some(i) => language_name(i),
        None => code,
    };
    let mut chars = chars_of(name);
    if chars.len() > 0 && 'a' <= chars[0] && chars[0] <= 'z' {
        let capital = (chars[0] as u8 - 32) as char;
        chars.set(0, capital);
    }
    string_of(&chars)
}

// Times.

/// A number of hours, in at least two digits.
pub open spec fn hours_text(h: nat) -> Seq<char> {
    if h < 100 {
        padded_decimal(h, 2)
    } else {
        decimal(h)
    }
}

/// A time of `ms` milliseconds, as minutes, seconds and milliseconds, with the hours before them
/// where there are any.
pub open spec fn timestamp_text(ms: nat) -> Seq<char> {
    let h = ms / 3_600_000;
    let rest = padded_decimal(ms % 3_600_000 / 60_000, 2).push(':') + padded_decimal(
        ms % 60_000 / 1_000,
        2,
    ).push('.') + padded_decimal(ms % 1_000, 3);
    if h > 0 {
        hours_text(h).push(':') + rest
    } else {
        rest
    }
}

/// Writes a time of `ms` milliseconds.
pub fn format_timestamp(ms: u64) -> (r: String)
    ensures
        r@ == timestamp_text(ms as nat),
{
    let h: u64 = ms / 3_600_000;
    let m: u64 = ms % 3_600_000 / 60_000;
    let s: u64 = ms % 60_000 / 1_000;
    let mut rest = padded_decimal_chars(m, 2);
    rest.push(':');
    let seconds = padded_decimal_chars(s, 2);
    rest.extend_from_slice(&seconds);
    rest.push('.');
    let fraction = padded_decimal_chars(ms % 1_000, 3);
    rest.extend_from_slice(&fraction);
    assert(rest@ =~= padded_decimal(m as nat, 2).push(':') + padded_decimal(s as nat, 2).push('.')
        + padded_decimal((ms % 1_000) as nat, 3));
    if h > 0 {
        let mut text = if h < 100 {
            padded_decimal_chars(h, 2)
        } else {
            decimal_chars(h)
        };
        text.push(':');
        text.extend_from_slice(&rest);
        string_of(&text)
    } else {
        string_of(&rest)
    }
}

} // verus!
