//! Audio, the dimensions of a model, and its weights.

use vstd::prelude::*;

use crate::audio::{
    ffmpeg_arg, fitted, frame_count, mel_frames, reflected, CHUNK_LENGTH,
    FRAMES_PER_SECOND, HOP_LENGTH, N_FFT, N_FRAMES, N_SAMPLES, N_SAMPLES_PER_TOKEN, SAMPLE_RATE,
    TOKENS_PER_SECOND,
};
use crate::load_models::{
    attention_slots, block_slots, blocks_slots, conv_slots, embedding_slots, first_missing,
    linear_slots, model_slots, norm_slots, Checkpoint,
};
use crate::numbers::decimal;
use crate::special::special_count;
use crate::whisper::{head_place, source_of, KvSource, ModelDimensions};

verus! {

// Audio.

/// What is brought to a length keeps what it has, as far as that goes, and holds nothing but zeros
/// behind it.
pub proof fn fitting_keeps_and_fills<T>(data: Seq<T>, n: nat, zero: T)
    ensures
        fitted(data, n, zero).len() == n,
        n <= data.len() ==> fitted(data, n, zero) == data.take(n as int),
        data.len() <= n ==> fitted(data, n, zero) == data + Seq::new(
            (n - data.len()) as nat,
            |i: int| zero,
        ),
{
    if n <= data.len() {
        assert(fitted(data, n, zero) =~= data.take(n as int));
    }
    if data.len() <= n {
        assert(fitted(data, n, zero) =~= data + Seq::new(
            (n - data.len()) as nat,
            |i: int| zero,
        ));
    }
}

/// A signal that is padded by reflection stands in the middle, and is mirrored at its first and at
/// its last item.
pub proof fn reflection_mirrors_the_ends<T>(x: Seq<T>, p: int, k: int)
    requires
        0 <= p < x.len(),
        0 <= k <= p,
    ensures
        reflected(x, p).len() == x.len() + 2 * p,
        reflected(x, p).subrange(p, p + x.len()) == x,
        reflected(x, p)[p - k] == reflected(x, p)[p + k],
        reflected(x, p)[p + x.len() - 1 + k] == reflected(x, p)[p + x.len() - 1 - k],
{
    assert(reflected(x, p).subrange(p, p + x.len()) =~= x);
}

/// There is one frame for every hop, and one more; and one mel frame for every whole hop.
pub proof fn there_is_a_frame_for_every_hop(n: int)
    requires
        n > 200,
    ensures
        frame_count(n, N_FFT as int, HOP_LENGTH as int) == mel_frames(n) + 1,
        mel_frames(n) * 160 <= n < (mel_frames(n) + 1) * 160,
{
}

/// Audio is taken at 16000 samples a second, 100 frames a second and 50 positions a second, in
/// windows of 30 seconds.
pub proof fn rates_and_windows_agree()
    ensures
        SAMPLE_RATE == 16000,
        HOP_LENGTH == 160,
        N_FFT == 400,
        CHUNK_LENGTH == 30,
        N_SAMPLES == 30 * 16000,
        N_FRAMES == 30 * 100,
        FRAMES_PER_SECOND == 100,
        N_SAMPLES_PER_TOKEN == 320,
        TOKENS_PER_SECOND == 50,
{
}

/// Audio is converted to raw mono samples of 16 bits, little-endian, at the rate that is asked for,
/// and written to the standard output.
pub proof fn audio_is_converted_to_raw_mono_samples(file: Seq<char>, rate: nat)
    ensures
        ffmpeg_arg(file, rate, 1) == "-i"@ && ffmpeg_arg(file, rate, 2) == file,
        ffmpeg_arg(file, rate, 5) == "-f"@ && ffmpeg_arg(file, rate, 6) == "s16le"@,
        ffmpeg_arg(file, rate, 7) == "-ac"@ && ffmpeg_arg(file, rate, 8) == "1"@,
        ffmpeg_arg(file, rate, 9) == "-acodec"@ && ffmpeg_arg(file, rate, 10) == "pcm_s16le"@,
        ffmpeg_arg(file, rate, 11) == "-ar"@ && ffmpeg_arg(file, rate, 12) == decimal(rate),
        ffmpeg_arg(file, rate, 13) == "-"@,
        ffmpeg_arg(file, rate, 0) == "-nostdin"@,
        ffmpeg_arg(file, rate, 3) == "-threads"@ && ffmpeg_arg(file, rate, 4) == "0"@,
{
}

// Dimensions.

/// The size of a vocabulary tells the languages of a model: a multilingual one has 50257 tokens of
/// text and the special tokens of its languages, of which there are 99 or more; the English one has
/// 50256 tokens of text and the special tokens of 99 languages.
pub proof fn the_vocabulary_tells_the_languages(d: ModelDimensions, n: nat)
    ensures
        n >= 99 && d.n_vocab == 50257 + special_count(n) ==> d.multilingual() && d.language_number()
            == n,
        d.n_vocab == 50256 + special_count(99) ==> !d.multilingual() && d.language_number() == 99,
{
}

/// The heads that align text with audio are those of the upper half of the layers: every layer is
/// aligned or in the lower half, and the lower half is no larger.
pub proof fn the_upper_half_is_aligned(d: ModelDimensions)
    ensures
        d.aligned_layers() + d.n_text_layer / 2 == d.n_text_layer,
        d.n_text_layer <= 2 * d.aligned_layers() <= d.n_text_layer + 1,
{
}

/// The heads stand one after the other, layer by layer, each as a pair.
pub proof fn heads_stand_layer_by_layer(l: int, h: int, heads: int)
    ensures
        head_place(0, 0, heads) == 0,
        head_place(l, h + 1, heads) == head_place(l, h, heads) + 2,
        head_place(l + 1, 0, heads) == head_place(l, heads - 1, heads) + 2,
{
    assert(0 * heads == 0) by (nonlinear_arith);
    assert((l + 1) * heads == l * heads + heads) by (nonlinear_arith);
}

/// Attention over the text always takes in the new input, and what is cached before it; attention
/// over the audio takes the audio once, and then what is cached.
pub proof fn attention_reads_what_it_has_not_cached(cached: bool, c: nat, i: nat, a: nat)
    ensures
        source_of(false, cached).key_count(c, i, a) == (if cached {
            c + i
        } else {
            i
        }),
        source_of(true, cached).key_count(c, i, a) == (if cached {
            c
        } else {
            a
        }),
        source_of(false, cached) == KvSource::Input <==> !cached,
        source_of(true, cached) == KvSource::Audio <==> !cached,
{
}

// Weights.

/// A linear layer needs its weight and may have a bias; a quantized one needs its scales and offsets
/// besides. A layer norm needs a weight and a bias, and a convolution its weight.
pub proof fn layers_need_their_weights(c: Checkpoint, p: Seq<char>)
    ensures
        linear_slots(c, p).contains((p + ".weight"@, true)),
        linear_slots(c, p).contains((p + ".bias"@, false)),
        c.packed(p) ==> linear_slots(c, p).contains((p + ".scales"@, true)) && linear_slots(
            c,
            p,
        ).contains((p + ".biases"@, true)) && linear_slots(c, p).len() == 4,
        !c.packed(p) ==> linear_slots(c, p).len() == 2,
        c.packed(p) <==> c.quantized && c.holds(p + ".scales"@),
        norm_slots(p) == seq![(p + ".weight"@, true), (p + ".bias"@, true)],
        conv_slots(p) == seq![(p + ".weight"@, true), (p + ".bias"@, false)],
        c.packed(p) ==> embedding_slots(c, p) == seq![
            (p + ".weight"@, true),
            (p + ".scales"@, true),
            (p + ".biases"@, true),
        ],
        !c.packed(p) ==> embedding_slots(c, p) == seq![(p + ".weight"@, false)],
{
    let s = linear_slots(c, p);
    assert(s[0] == (p + ".weight"@, true));
    assert(s[s.len() - 1] == (p + ".bias"@, false));
    if c.packed(p) {
        assert(s[1] == (p + ".scales"@, true) && s[2] == (p + ".biases"@, true));
    }
}

/// Whether all of `part` is in `all`.
pub open spec fn holds_all(all: Seq<(Seq<char>, bool)>, part: Seq<(Seq<char>, bool)>) -> bool {
    forall|x: (Seq<char>, bool)| part.contains(x) ==> #[trigger] all.contains(x)
}

proof fn lemma_holds_parts(a: Seq<(Seq<char>, bool)>, b: Seq<(Seq<char>, bool)>)
    ensures
        holds_all(a + b, a),
        holds_all(a + b, b),
{
    assert forall|x: (Seq<char>, bool)| a.contains(x) implies #[trigger] (a + b).contains(x) by {
        let i = choose|i: int| 0 <= i < a.len() && a[i] == x;
        assert((a + b)[i] == x);
    }
    assert forall|x: (Seq<char>, bool)| b.contains(x) implies #[trigger] (a + b).contains(x) by {
        let i = choose|i: int| 0 <= i < b.len() && b[i] == x;
        assert((a + b)[a.len() + i] == x);
    }
}

proof fn lemma_holds_more(
    a: Seq<(Seq<char>, bool)>,
    b: Seq<(Seq<char>, bool)>,
    c: Seq<(Seq<char>, bool)>,
)
    requires
        holds_all(a, c),
    ensures
        holds_all(a + b, c),
{
    lemma_holds_parts(a, b);
    assert forall|x: (Seq<char>, bool)| c.contains(x) implies #[trigger] (a + b).contains(x) by {
        assert(a.contains(x));
    }
}

/// An attention layer has four linear layers.
pub proof fn attention_has_four_linear_layers(c: Checkpoint, p: Seq<char>)
    ensures
        holds_all(attention_slots(c, p), linear_slots(c, p + ".query"@)),
        holds_all(attention_slots(c, p), linear_slots(c, p + ".key"@)),
        holds_all(attention_slots(c, p), linear_slots(c, p + ".value"@)),
        holds_all(attention_slots(c, p), linear_slots(c, p + ".out"@)),
        attention_slots(c, p).len() == linear_slots(c, p + ".query"@).len() + linear_slots(
            c,
            p + ".key"@,
        ).len() + linear_slots(c, p + ".value"@).len() + linear_slots(c, p + ".out"@).len(),
{
    let q = linear_slots(c, p + ".query"@);
    let k = linear_slots(c, p + ".key"@);
    let v = linear_slots(c, p + ".value"@);
    let o = linear_slots(c, p + ".out"@);
    lemma_holds_parts(q, k);
    lemma_holds_more(q + k, v, q);
    lemma_holds_more(q + k, v, k);
    lemma_holds_parts(q + k, v);
    lemma_holds_more(q + k + v, o, q);
    lemma_holds_more(q + k + v, o, k);
    lemma_holds_more(q + k + v, o, v);
    lemma_holds_parts(q + k + v, o);
}

/// A block has attention to itself, two linear layers and two layer norms; a block of the decoder
/// has attention to the audio and a layer norm for it besides.
pub proof fn blocks_have_their_layers(c: Checkpoint, p: Seq<char>, cross: bool)
    ensures
        ({
            let b = block_slots(c, p, cross);
            &&& holds_all(b, attention_slots(c, p + ".attn"@))
            &&& holds_all(b, norm_slots(p + ".attn_ln"@))
            &&& holds_all(b, linear_slots(c, p + ".mlp1"@))
            &&& holds_all(b, linear_slots(c, p + ".mlp2"@))
            &&& holds_all(b, norm_slots(p + ".mlp_ln"@))
            &&& cross ==> holds_all(b, attention_slots(c, p + ".cross_attn"@)) && holds_all(
                b,
                norm_slots(p + ".cross_attn_ln"@),
            )
            &&& !cross ==> b.len() == attention_slots(c, p + ".attn"@).len() + linear_slots(
                c,
                p + ".mlp1"@,
            ).len() + linear_slots(c, p + ".mlp2"@).len() + 4
        }),
{
    let a = attention_slots(c, p + ".attn"@);
    let n = norm_slots(p + ".attn_ln"@);
    let x = attention_slots(c, p + ".cross_attn"@);
    let y = norm_slots(p + ".cross_attn_ln"@);
    let w = if cross {
        x + y
    } else {
        seq![]
    };
    let f = linear_slots(c, p + ".mlp1"@);
    let g = linear_slots(c, p + ".mlp2"@);
    let m = norm_slots(p + ".mlp_ln"@);
    lemma_holds_parts(a, n);
    lemma_holds_parts(a + n, w);
    lemma_holds_parts(x, y);
    lemma_holds_parts(a + n + w, f);
    lemma_holds_parts(a + n + w + f, g);
    lemma_holds_parts(a + n + w + f + g, m);
    let b = block_slots(c, p, cross);
    assert(b == a + n + w + f + g + m);
    assert forall|z: (Seq<char>, bool)| (a + n + w).contains(z) implies #[trigger] b.contains(
        z,
    ) by {
        assert((a + n + w + f).contains(z));
        assert((a + n + w + f + g).contains(z));
    }
    assert forall|z: (Seq<char>, bool)| a.contains(z) implies #[trigger] b.contains(z) by {
        assert((a + n).contains(z));
        assert((a + n + w).contains(z));
    }
    assert forall|z: (Seq<char>, bool)| n.contains(z) implies #[trigger] b.contains(z) by {
        assert((a + n).contains(z));
        assert((a + n + w).contains(z));
    }
    assert forall|z: (Seq<char>, bool)| f.contains(z) implies #[trigger] b.contains(z) by {
        assert((a + n + w + f).contains(z));
        assert((a + n + w + f + g).contains(z));
    }
    assert forall|z: (Seq<char>, bool)| g.contains(z) implies #[trigger] b.contains(z) by {
        assert((a + n + w + f + g).contains(z));
    }
    if cross {
        assert forall|z: (Seq<char>, bool)| x.contains(z) implies #[trigger] b.contains(z) by {
            assert(w.contains(z));
            assert((a + n + w).contains(z));
        }
        assert forall|z: (Seq<char>, bool)| y.contains(z) implies #[trigger] b.contains(z) by {
            assert(w.contains(z));
            assert((a + n + w).contains(z));
        }
    }
}

proof fn lemma_block_of_blocks(c: Checkpoint, p: Seq<char>, n: nat, cross: bool, i: nat)
    requires
        i < n,
    ensures
        holds_all(blocks_slots(c, p, n, cross), block_slots(c, p + decimal(i), cross)),
    decreases n,
{
    let before = blocks_slots(c, p, (n - 1) as nat, cross);
    let last = block_slots(c, p + decimal((n - 1) as nat), cross);
    lemma_holds_parts(before, last);
    if i < n - 1 {
        lemma_block_of_blocks(c, p, (n - 1) as nat, cross, i);
        lemma_holds_more(before, last, block_slots(c, p + decimal(i), cross));
    }
}

/// A model has a block for every layer of its encoder and of its decoder, those of the decoder with
/// attention to the audio; besides two convolutions, two layer norms, the embedding of its tokens,
/// and, where the checkpoint holds them, the embedding of the positions and the alignment heads.
pub proof fn models_have_a_block_for_every_layer(c: Checkpoint, d: ModelDimensions, i: nat)
    ensures
        ({
            let all = model_slots(c, d);
            &&& i < d.n_audio_layer ==> holds_all(
                all,
                block_slots(c, "encoder.blocks."@ + decimal(i), false),
            )
            &&& i < d.n_text_layer ==> holds_all(
                all,
                block_slots(c, "decoder.blocks."@ + decimal(i), true),
            )
            &&& holds_all(all, conv_slots("encoder.conv1"@))
            &&& holds_all(all, conv_slots("encoder.conv2"@))
            &&& holds_all(all, norm_slots("encoder.ln_post"@))
            &&& holds_all(all, norm_slots("decoder.ln"@))
            &&& holds_all(all, embedding_slots(c, "decoder.token_embedding"@))
            &&& all.contains(("decoder.positional_embedding"@, false))
            &&& all.contains(("alignment_heads"@, false))
        }),
{
    let s1 = conv_slots("encoder.conv1"@);
    let s2 = conv_slots("encoder.conv2"@);
    let s3 = norm_slots("encoder.ln_post"@);
    let s4 = blocks_slots(c, "encoder.blocks."@, d.n_audio_layer as nat, false);
    let s5 = embedding_slots(c, "decoder.token_embedding"@);
    let s6 = seq![("decoder.positional_embedding"@, false)];
    let s7 = norm_slots("decoder.ln"@);
    let s8 = blocks_slots(c, "decoder.blocks."@, d.n_text_layer as nat, true);
    let s9 = seq![("alignment_heads"@, false)];
    let t2 = s1 + s2;
    let t3 = t2 + s3;
    let t4 = t3 + s4;
    let t5 = t4 + s5;
    let t6 = t5 + s6;
    let t7 = t6 + s7;
    let t8 = t7 + s8;
    let all = t8 + s9;
    assert(all == model_slots(c, d));
    lemma_holds_parts(s1, s2);
    lemma_holds_parts(t2, s3);
    lemma_holds_parts(t3, s4);
    lemma_holds_parts(t4, s5);
    lemma_holds_parts(t5, s6);
    lemma_holds_parts(t6, s7);
    lemma_holds_parts(t7, s8);
    lemma_holds_parts(t8, s9);
    lemma_within(t7, t8, all);
    lemma_within(t6, t7, all);
    lemma_within(t5, t6, all);
    lemma_within(t4, t5, all);
    lemma_within(t3, t4, all);
    lemma_within(t2, t3, all);
    lemma_within(s1, t2, all);
    lemma_within(s2, t2, all);
    lemma_within(s3, t3, all);
    lemma_within(s4, t4, all);
    lemma_within(s5, t5, all);
    lemma_within(s6, t6, all);
    lemma_within(s7, t7, all);
    lemma_within(s8, t8, all);
    assert(s6.contains(s6[0]));
    assert(s9.contains(s9[0]));
    if i < d.n_audio_layer {
        let b = block_slots(c, "encoder.blocks."@ + decimal(i), false);
        lemma_block_of_blocks(c, "encoder.blocks."@, d.n_audio_layer as nat, false, i);
        lemma_within(b, s4, all);
    }
    if i < d.n_text_layer {
        let b = block_slots(c, "decoder.blocks."@ + decimal(i), true);
        lemma_block_of_blocks(c, "decoder.blocks."@, d.n_text_layer as nat, true, i);
        lemma_within(b, s8, all);
    }
}

proof fn lemma_within(
    a: Seq<(Seq<char>, bool)>,
    b: Seq<(Seq<char>, bool)>,
    c: Seq<(Seq<char>, bool)>,
)
    requires
        holds_all(b, a),
        holds_all(c, b),
    ensures
        holds_all(c, a),
{
    assert forall|x: (Seq<char>, bool)| a.contains(x) implies #[trigger] c.contains(x) by {
        assert(b.contains(x));
    }
}

/// The weight that is reported missing is the first of those that are needed and not held.
pub proof fn the_first_missing_weight_is_reported(
    c: Checkpoint,
    before: Seq<(Seq<char>, bool)>,
    key: Seq<char>,
    behind: Seq<(Seq<char>, bool)>,
)
    requires
        forall|i: int| 0 <= i < before.len() && (#[trigger] before[i]).1 ==> c.holds(before[i].0),
        !c.holds(key),
    ensures
        first_missing(c, before.push((key, true)) + behind) == Some(key),
    decreases before.len(),
{
    let all = before.push((key, true)) + behind;
    if before.len() > 0 {
        let rest = before.drop_first();
        assert forall|i: int| 0 <= i < rest.len() && (#[trigger] rest[i]).1 implies c.holds(
            rest[i].0,
        ) by {
            assert(rest[i] == before[i + 1]);
        }
        the_first_missing_weight_is_reported(c, rest, key, behind);
        assert(all.drop_first() =~= rest.push((key, true)) + behind);
        assert(all[0] == before[0]);
    } else {
        assert(all[0] == (key, true));
    }
}

} // verus!
