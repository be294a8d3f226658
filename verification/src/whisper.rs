//! The dimensions of a model, and the windows of its attention.

use vstd::prelude::*;

verus! {

/// The dimensions of a model.
#[derive(Clone, Copy, Debug, PartialEq, Eq, Structural)]
pub struct ModelDimensions {
    pub n_mels: usize,
    pub n_audio_ctx: usize,
    pub n_audio_state: usize,
    pub n_audio_head: usize,
    pub n_audio_layer: usize,
    pub n_vocab: usize,
    pub n_text_ctx: usize,
    pub n_text_state: usize,
    pub n_text_head: usize,
    pub n_text_layer: usize,
}

impl ModelDimensions {
    /// A vocabulary with language tokens is larger than one without.
    pub open spec fn multilingual(self) -> bool {
        self.n_vocab >= 51865
    }

    /// The number of languages, by the size of the vocabulary.
    pub open spec fn language_number(self) -> int {
        self.n_vocab - 51765 - if self.multilingual() {
            1int
        } else {
            0int
        }
    }

    /// Whether the model knows more than English.
    pub fn is_multilingual(&self) -> (r: bool)
        ensures
            r == self.multilingual(),
    {
        self.n_vocab >= 51865
    }

    /// The number of languages that the model knows.
    pub fn num_languages(&self) -> (r: usize)
        requires
            self.n_vocab >= 51765,
        ensures
            r == self.language_number(),
    {
        self.n_vocab - 51765 - if self.is_multilingual() {
            1
        } else {
            0
        }
    }

    /// The number of decoder layers whose heads align text with audio: the upper half.
    pub open spec fn aligned_layers(self) -> int {
        self.n_text_layer - self.n_text_layer / 2
    }

    /// The heads that align text with audio by default: all heads of the upper half of the
    /// decoder layers, each as its layer and its number within it.
    pub fn alignment_heads(&self) -> (r: Vec<i32>)
        requires
            self.n_text_layer <= i32::MAX,
            self.n_text_head <= i32::MAX,
            2 * self.aligned_layers() * self.n_text_head <= usize::MAX,
        ensures
            r@.len() == 2 * self.aligned_layers() * self.n_text_head,
            forall|l: int, h: int|
                0 <= l < self.aligned_layers() && 0 <= h < self.n_text_head ==> {
                    let k = #[trigger] head_place(l, h, self.n_text_head as int);
                    &&& 0 <= k && k + 1 < r@.len()
                    &&& r@[k] == self.n_text_layer / 2 + l
                    &&& r@[k + 1] == h
                },
    {
        let half: usize = self.n_text_layer / 2;
        let heads: usize = self.n_text_head;
        let mut pairs: Vec<i32> = Vec::new();
        let mut layer: usize = half;
        assert(2 * (layer - half) * heads == 0) by (nonlinear_arith)
            requires
                layer == half,
        ;
        while layer < self.n_text_layer
            invariant
                half == self.n_text_layer / 2,
                heads == self.n_text_head,
                half <= layer <= self.n_text_layer <= i32::MAX,
                heads <= i32::MAX,
                pairs@.len() == 2 * (layer - half) * heads,
                forall|l: int, h: int|
                    0 <= l < layer - half && 0 <= h < heads ==> {
                        let k = #[trigger] head_place(l, h, heads as int);
                        &&& 0 <= k && k + 1 < pairs@.len()
                        &&& pairs@[k] == half + l
                        &&& pairs@[k + 1] == h
                    },
            decreases self.n_text_layer - layer,
        {
            let ghost start = pairs@.len() as int;
            let ghost row = layer - half;
            let mut head: usize = 0;
            while head < heads
                invariant
                    half == self.n_text_layer / 2,
                    heads == self.n_text_head,
                    half <= layer < self.n_text_layer <= i32::MAX,
                    heads <= i32::MAX,
                    head <= heads,
                    row == layer - half,
                    start == 2 * row * heads,
                    pairs@.len() == start + 2 * head,
                    forall|l: int, h: int|
                        0 <= h < heads && ((0 <= l < row) || (l == row && h < head)) ==> {
                            let k = #[trigger] head_place(l, h, heads as int);
                            &&& 0 <= k && k + 1 < pairs@.len()
                            &&& pairs@[k] == half + l
                            &&& pairs@[k + 1] == h
                        },
                decreases heads - head,
            {
                proof {
                    lemma_head_place(row, head as int, heads as int);
                }
                let ghost before = pairs@;
                pairs.push(layer as i32);
                pairs.push(head as i32);
                head += 1;
                assert forall|l: int, h: int|
                    0 <= h < heads && ((0 <= l < row) || (l == row && h < head)) implies {
                    let k = #[trigger] head_place(l, h, heads as int);
                    &&& 0 <= k && k + 1 < pairs@.len()
                    &&& pairs@[k] == half + l
                    &&& pairs@[k + 1] == h
                } by {
                    let k = head_place(l, h, heads as int);
                    if l < row || h < head - 1 {
                        assert(before[k] == half + l);
                    } else {
                        assert(k == start + 2 * (head - 1));
                    }
                }
            }
            layer += 1;
            assert(2 * (row + 1) * heads == 2 * row * heads + 2 * heads) by (nonlinear_arith);
        }
        pairs
    }
}

/// Where head `h` of aligned layer `l` stands in the list of heads.
pub open spec fn head_place(l: int, h: int, heads: int) -> int {
    2 * (l * heads + h)
}

proof fn lemma_head_place(l: int, h: int, heads: int)
    ensures
        head_place(l, h, heads) == 2 * l * heads + 2 * h,
{
    assert(2 * (l * heads + h) == 2 * l * heads + 2 * h) by (nonlinear_arith);
}

/// Why a length of the encoder's context is refused.
#[derive(Clone, Copy, Debug, PartialEq, Eq, Structural)]
pub enum WindowError {
    /// It is 0, or more than the model has.
    OutOfRange {
        audio_ctx: usize,
        n_audio_ctx: usize,
    },
    /// There are fewer mel frames than it needs.
    TooFewFrames {
        audio_ctx: usize,
        mel_frames: usize,
    },
}

/// What part of its input the encoder works on.
#[derive(Clone, Copy, Debug, PartialEq, Eq, Structural)]
pub struct EncoderWindow {
    /// Mel frames, from the first.
    pub mel_frames: usize,
    /// Positions, from the first.
    pub positions: usize,
}

/// The part of the encoder's input for a context of `audio_ctx` positions: two mel frames for
/// each. Without one, all of the input.
pub fn encoder_window(
    audio_ctx: Option<usize>,
    n_audio_ctx: usize,
    mel_frames: usize,
) -> (r: Result<EncoderWindow, WindowError>)
    ensures
        match audio_ctx {
            None => r == Ok::<_, WindowError>(
                EncoderWindow { mel_frames, positions: n_audio_ctx },
            ),
            Some(n) => if n == 0 || n > n_audio_ctx {
                r == Err::<EncoderWindow, _>(WindowError::OutOfRange { audio_ctx: n, n_audio_ctx })
            } else if 2 * n > mel_frames {
                r == Err::<EncoderWindow, _>(
                    WindowError::TooFewFrames { audio_ctx: n, mel_frames },
                )
            } else {
                r == Ok::<_, WindowError>(
                    EncoderWindow { mel_frames: (2 * n) as usize, positions: n },
                )
            },
        },
{
    match audio_ctx {
        None => Ok(EncoderWindow { mel_frames, positions: n_audio_ctx }),
        Some(n) => {
            if n == 0 || n > n_audio_ctx {
                return Err(WindowError::OutOfRange { audio_ctx: n, n_audio_ctx });
            }
            if n > mel_frames / 2 {
                return Err(WindowError::TooFewFrames { audio_ctx: n, mel_frames });
            }
            Ok(EncoderWindow { mel_frames: 2 * n, positions: n })
        },
    }
}

/// Which positions a step of the decoder works on.
#[derive(Clone, Copy, Debug, PartialEq, Eq, Structural)]
pub struct DecoderWindow {
    /// The position of the first new token: the number of tokens in the cache.
    pub offset: usize,
    /// The position behind the last new token.
    pub end: usize,
    /// Whether the causal mask is applied, from row `offset` to row `end`, up to column `end`.
    pub masked: bool,
}

/// The positions of `seq_len` new tokens behind `cached` tokens. A single token needs no mask.
pub fn decoder_window(cached: Option<usize>, seq_len: usize) -> (r: DecoderWindow)
    requires
        (match cached {
            Some(n) => n as int,
            None => 0,
        }) + seq_len <= usize::MAX,
    ensures
        r.offset == (match cached {
            Some(n) => n,
            None => 0,
        }),
        r.end == r.offset + seq_len,
        r.masked == (seq_len != 1),
{
    let offset: usize = match cached {
        Some(n) => n,
        None => 0,
    };
    DecoderWindow { offset, end: offset + seq_len, masked: seq_len != 1 }
}

impl DecoderWindow {
    /// Whether new token `i` sees key `key`: all keys up to `end`, and under the causal mask none
    /// behind its own position.
    pub open spec fn sees(self, i: int, key: int) -> bool {
        0 <= key < self.end && (self.masked ==> key <= self.offset + i)
    }
}

/// Decoding in steps from a cache sees what a single pass over all tokens sees: each token sees
/// the tokens up to its own position, and no others.
pub proof fn cached_steps_see_what_a_full_pass_sees(
    full: DecoderWindow,
    step: DecoderWindow,
    i: int,
    key: int,
)
    requires
        full.offset == 0,
        full.masked == (full.end != 1),
        step.masked == (step.end - step.offset != 1),
        0 <= i < step.end - step.offset,
        step.end <= full.end,
    ensures
        step.sees(i, key) <==> full.sees(step.offset + i, key),
        step.sees(i, key) <==> 0 <= key <= step.offset + i,
{
}

/// Where an attention layer takes its keys and values from.
#[derive(Clone, Copy, Debug, PartialEq, Eq, Structural)]
pub enum KvSource {
    /// From its input alone.
    Input,
    /// From the cache, followed by its input.
    CacheAndInput,
    /// From the encoder's output.
    Audio,
    /// From the cache alone.
    Cache,
}

/// Where an attention layer takes its keys and values from: one over the audio computes them
/// once, one over the text adds to them at every step.
pub open spec fn source_of(cross_attention: bool, cached: bool) -> KvSource {
    if cross_attention {
        if cached {
            KvSource::Cache
        } else {
            KvSource::Audio
        }
    } else if cached {
        KvSource::CacheAndInput
    } else {
        KvSource::Input
    }
}

/// Tells where an attention layer takes its keys and values from.
pub fn kv_source(cross_attention: bool, cached: bool) -> (r: KvSource)
    ensures
        r == source_of(cross_attention, cached),
{
    if cross_attention {
        if cached {
            KvSource::Cache
        } else {
            KvSource::Audio
        }
    } else if cached {
        KvSource::CacheAndInput
    } else {
        KvSource::Input
    }
}

impl KvSource {
    /// The number of keys, given the numbers in the cache, in the input and in the audio.
    pub open spec fn key_count(self, cached: nat, input: nat, audio: nat) -> nat {
        match self {
            KvSource::Input => input,
            KvSource::CacheAndInput => cached + input,
            KvSource::Audio => audio,
            KvSource::Cache => cached,
        }
    }
}

/// The number of keys that a layer has after steps of the given lengths, where the cache holds
/// what the step before had.
pub open spec fn keys_after(cross_attention: bool, steps: Seq<nat>, audio: nat) -> nat
    decreases steps.len(),
{
    if steps.len() == 0 {
        0
    } else {
        source_of(cross_attention, steps.len() > 1).key_count(
            keys_after(cross_attention, steps.drop_last(), audio),
            steps.last(),
            audio,
        )
    }
}

/// The number of tokens in steps of the given lengths.
pub open spec fn tokens_in(steps: Seq<nat>) -> nat
    decreases steps.len(),
{
    if steps.len() == 0 {
        0
    } else {
        tokens_in(steps.drop_last()) + steps.last()
    }
}

/// The cache of the text holds one position for every token of the steps so far, and that of the
/// audio always holds the positions of the audio.
pub proof fn the_cache_grows_with_the_text(steps: Seq<nat>, audio: nat)
    requires
        steps.len() > 0,
    ensures
        keys_after(false, steps, audio) == tokens_in(steps),
        keys_after(true, steps, audio) == audio,
    decreases steps.len(),
{
    let before = steps.drop_last();
    if before.len() > 0 {
        the_cache_grows_with_the_text(before, audio);
    } else {
        assert(tokens_in(before) == 0);
    }
}

} // verus!
