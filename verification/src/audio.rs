//! Audio input: samples, padding, frames and mel filters.

use vstd::prelude::*;

pub use crate::wav::{audio_from_wav_bytes, Samples, WavAudio, WavError, WavHeader};

use crate::bytes::{i16_list, read_i16_list};
use crate::npy::{countable, float_bits, item_count, load_npy_f32, NpyError};
use crate::numbers::{decimal, decimal_chars};
use crate::text::{chars_of, string_of};
use crate::wav::{holds_samples, whole_frames};

verus! {

/// Samples per second.
pub const SAMPLE_RATE: usize = 16000;

/// Samples in one Fourier transform.
pub const N_FFT: usize = 400;

/// Samples between the starts of two transforms.
pub const HOP_LENGTH: usize = 160;

/// Seconds in a window.
pub const CHUNK_LENGTH: usize = 30;

/// Samples in a window.
pub const N_SAMPLES: usize = CHUNK_LENGTH * SAMPLE_RATE;

/// Mel frames in a window.
pub const N_FRAMES: usize = N_SAMPLES / HOP_LENGTH;

/// Samples that one output token of the encoder stands for.
pub const N_SAMPLES_PER_TOKEN: usize = HOP_LENGTH * 2;

/// Mel frames per second.
pub const FRAMES_PER_SECOND: usize = SAMPLE_RATE / HOP_LENGTH;

/// Output tokens of the encoder per second.
pub const TOKENS_PER_SECOND: usize = SAMPLE_RATE / N_SAMPLES_PER_TOKEN;

/// Why audio cannot be worked on.
#[derive(Clone, Copy, Debug, PartialEq, Eq, Structural)]
pub enum AudioError {
    /// There are too few samples to pad by reflection.
    TooShort {
        samples: usize,
        needed: usize,
    },
    /// There are filters for 80 and for 128 mel bands only.
    UnsupportedMels(usize),
    /// The filters cannot be read.
    Filters(NpyError),
}

/// Reads mono samples of 16 bits, in units of 1/32768. An odd byte at the end is left out.
pub fn audio_from_pcm_s16le(pcm_bytes: &[u8]) -> (r: Vec<i16>)
    ensures
        r@ == i16_list(pcm_bytes@),
{
    read_i16_list(pcm_bytes)
}

/// A mono file of 16-bit samples holds the samples that its data holds without a header.
pub proof fn mono_files_hold_plain_samples(v: Vec<i16>, h: WavHeader, raw: Seq<u8>)
    requires
        holds_samples(Samples::Pcm16(v), h, raw),
        h.channels == 1,
    ensures
        v@ == i16_list(raw),
{
    assert(whole_frames((raw.len() / 2) as int, 1) == raw.len() / 2);
    assert(v@ =~= i16_list(raw));
}

/// `data`, cut off or filled up to `n` items.
pub open spec fn fitted<T>(data: Seq<T>, n: nat, zero: T) -> Seq<T> {
    Seq::new(
        n,
        |i: int|
            if i < data.len() {
                data[i]
            } else {
                zero
            },
    )
}

/// How many rows are kept, and how many are added behind them.
#[derive(Clone, Copy, Debug, PartialEq, Eq, Structural)]
pub struct PadPlan {
    pub keep: usize,
    pub pad: usize,
}

/// Plans to bring `current` rows to exactly `length`.
pub fn pad_plan(current: usize, length: usize) -> (r: PadPlan)
    ensures
        r.keep == (if current < length {
            current
        } else {
            length
        }),
        r.keep + r.pad == length,
{
    if current < length {
        PadPlan { keep: current, pad: length - current }
    } else {
        PadPlan { keep: length, pad: 0 }
    }
}

/// Brings `data`, in rows of `row` items, to exactly `length` rows: rows beyond are cut off,
/// missing rows are filled with `zero`.
pub fn pad_or_trim<T: Copy>(data: &[T], row: usize, length: usize, zero: T) -> (r: Vec<T>)
    requires
        length * row <= usize::MAX,
    ensures
        r@ == fitted(data@, (length * row) as nat, zero),
{
    let plan = pad_plan(data.len(), length * row);
    let mut r: Vec<T> = Vec::new();
    let mut i: usize = 0;
    while i < plan.keep
        invariant
            i <= plan.keep <= data@.len(),
            r@ == data@.take(i as int),
        decreases plan.keep - i,
    {
        r.push(data[i]);
        i += 1;
        assert(r@ =~= data@.take(i as int));
    }
    let mut k: usize = 0;
    while k < plan.pad
        invariant
            k <= plan.pad,
            plan.keep + plan.pad <= usize::MAX,
            plan.pad > 0 ==> plan.keep == data@.len(),
            plan.keep <= data@.len(),
            r@ == fitted(data@, (plan.keep + k) as nat, zero),
        decreases plan.pad - k,
    {
        r.push(zero);
        k += 1;
        assert(r@ =~= fitted(data@, (plan.keep + k) as nat, zero));
    }
    assert(r@ =~= fitted(data@, (length * row) as nat, zero));
    r
}

/// Data that has the length already stays as it is; and what was brought to a length stays as it
/// is when it is brought to that length again.
pub proof fn fitting_is_idempotent<T>(data: Seq<T>, n: nat, zero: T)
    ensures
        fitted(data, n, zero).len() == n,
        data.len() == n ==> fitted(data, n, zero) == data,
        fitted(fitted(data, n, zero), n, zero) == fitted(data, n, zero),
{
    assert(data.len() == n ==> fitted(data, n, zero) =~= data);
    assert(fitted(fitted(data, n, zero), n, zero) =~= fitted(data, n, zero));
}

/// `x` with `p` items reflected at each end, the end items themselves not repeated.
pub open spec fn reflected<T>(x: Seq<T>, p: int) -> Seq<T> {
    Seq::new(
        (x.len() + 2 * p) as nat,
        |i: int|
            if i < p {
                x[p - i]
            } else if i < p + x.len() {
                x[i - p]
            } else {
                x[2 * x.len() + p - 2 - i]
            },
    )
}

/// Pads `x` by reflection at both ends.
pub fn reflect_pad<T: Copy>(x: &[T], p: usize) -> (r: Vec<T>)
    requires
        p < x@.len(),
        x@.len() + 2 * p <= usize::MAX,
    ensures
        r@ == reflected(x@, p as int),
{
    let n: usize = x.len();
    let total: usize = n + 2 * p;
    let mut r: Vec<T> = Vec::new();
    let mut i: usize = 0;
    while i < total
        invariant
            n == x@.len(),
            p < n,
            total == n + 2 * p,
            i <= total,
            r@ == reflected(x@, p as int).take(i as int),
        decreases total - i,
    {
        let item: T = if i < p {
            x[p - i]
        } else if i < p + n {
            x[i - p]
        } else {
            x[n - 2 - (i - p - n)]
        };
        r.push(item);
        i += 1;
        assert(r@ =~= reflected(x@, p as int).take(i as int));
    }
    assert(reflected(x@, p as int).take(total as int) =~= reflected(x@, p as int));
    r
}

/// How a signal is cut into overlapping frames.
#[derive(Clone, Copy, Debug, PartialEq, Eq, Structural)]
pub struct StftPlan {
    /// Samples reflected at each end.
    pub padding: usize,
    /// Samples in all, with the reflected ones.
    pub padded: usize,
    /// The number of frames.
    pub frames: usize,
}

/// The number of frames of `segment` samples, `hop` apart, in `n` samples padded by half a frame
/// at each end.
pub open spec fn frame_count(n: int, segment: int, hop: int) -> int {
    (n + 2 * (segment / 2) - segment + hop) / hop
}

/// Plans the frames of a signal of `samples` samples. The signal must be longer than the padding.
pub fn stft_plan(samples: usize, segment: usize, hop: usize) -> (r: Result<StftPlan, AudioError>)
    requires
        0 < hop,
        samples + segment + hop <= usize::MAX,
    ensures
        match r {
            Ok(plan) => {
                &&& samples >= segment / 2 + 1
                &&& plan.padding == segment / 2
                &&& plan.padded == samples + 2 * (segment / 2)
                &&& plan.frames == frame_count(samples as int, segment as int, hop as int)
            },
            Err(e) => samples < segment / 2 + 1 && e == (AudioError::TooShort {
                samples,
                needed: (segment / 2 + 1) as usize,
            }),
        },
{
    let padding: usize = segment / 2;
    if samples < padding + 1 {
        return Err(AudioError::TooShort { samples, needed: padding + 1 });
    }
    let padded: usize = samples + 2 * padding;
    Ok(StftPlan { padding, padded, frames: (padded - segment + hop) / hop })
}

/// Every frame lies within the padded signal, and there is room for no further one.
pub proof fn frames_lie_within(samples: int, segment: int, hop: int, t: int)
    requires
        0 < hop,
        0 <= segment,
        segment / 2 + 1 <= samples,
        0 <= t,
    ensures
        t < frame_count(samples, segment, hop) <==> t * hop + segment <= samples + 2 * (segment
            / 2),
        frame_count(samples, segment, hop) >= 1,
{
    let room = samples + 2 * (segment / 2) - segment;
    assert(room >= 0);
    let f = frame_count(samples, segment, hop);
    vstd::arithmetic::div_mod::lemma_fundamental_div_mod(room + hop, hop);
    vstd::arithmetic::div_mod::lemma_mod_bound(room + hop, hop);
    assert(room + hop == hop * f + (room + hop) % hop);
    assert(f >= 1) by (nonlinear_arith)
        requires
            room + hop == hop * f + (room + hop) % hop,
            (room + hop) % hop < hop,
            room >= 0,
            hop > 0,
    ;
    if t < f {
        assert(t * hop <= room) by (nonlinear_arith)
            requires
                t < f,
                room + hop == hop * f + (room + hop) % hop,
                0 <= (room + hop) % hop,
                hop > 0,
        ;
    } else {
        assert(t * hop > room) by (nonlinear_arith)
            requires
                t >= f,
                room + hop == hop * f + (room + hop) % hop,
                (room + hop) % hop < hop,
                hop > 0,
        ;
    }
}

/// The number of mel frames of a signal of `n` samples: one for every hop.
pub open spec fn mel_frames(n: int) -> int {
    n / (HOP_LENGTH as int)
}

/// The number of mel frames of `samples` samples with `padding` zeros behind them. The last frame
/// of the transform is left out.
pub fn mel_frame_count(samples: usize, padding: usize) -> (r: Result<usize, AudioError>)
    requires
        samples + padding + N_FFT + HOP_LENGTH <= usize::MAX,
    ensures
        match r {
            Ok(n) => samples + padding > 200 && n == mel_frames(samples + padding),
            Err(e) => samples + padding <= 200 && e == (AudioError::TooShort {
                samples: (samples + padding) as usize,
                needed: 201,
            }),
        },
{
    match stft_plan(samples + padding, N_FFT, HOP_LENGTH) {
        Ok(plan) => Ok(plan.frames - 1),
        Err(e) => Err(e),
    }
}

/// A full window has exactly the frames of a window, and padding by a window adds exactly as many.
pub proof fn windows_have_n_frames(n: int)
    requires
        n >= 0,
    ensures
        mel_frames(N_SAMPLES as int) == N_FRAMES,
        mel_frames(n + N_SAMPLES) == mel_frames(n) + N_FRAMES,
{
}

/// The name of the file of mel filters.
pub open spec fn filter_file_name(n_mels: nat) -> Seq<char> {
    "mel_filters_"@ + decimal(n_mels) + ".npy"@
}

/// The name of the file of mel filters for `n_mels` bands.
pub fn mel_filters_file(n_mels: usize) -> (r: Result<String, AudioError>)
    ensures
        match r {
            Ok(name) => (n_mels == 80 || n_mels == 128) && name@ == filter_file_name(
                n_mels as nat,
            ),
            Err(e) => n_mels != 80 && n_mels != 128 && e == AudioError::UnsupportedMels(n_mels),
        },
{
    if n_mels != 80 && n_mels != 128 {
        return Err(AudioError::UnsupportedMels(n_mels));
    }
    let mut name = chars_of("mel_filters_");
    let digits = decimal_chars(n_mels as u64);
    name.extend_from_slice(&digits);
    let suffix = chars_of(".npy");
    name.extend_from_slice(&suffix);
    Ok(string_of(&name))
}

/// Reads the mel filters for `n_mels` bands from the content of their file: a matrix of `n_mels`
/// rows and a column for each frequency, as bit patterns of 32-bit floats.
pub fn mel_filters(n_mels: usize, file: &[u8]) -> (r: Result<Vec<u32>, AudioError>)
    ensures
        if n_mels != 80 && n_mels != 128 {
            r == Err::<Vec<u32>, _>(AudioError::UnsupportedMels(n_mels))
        } else {
            match float_bits(file@, (n_mels * 201) as nat) {
                Ok(bits) => r matches Ok(v) && v@ == bits,
                Err(e) => r == Err::<Vec<u32>, _>(AudioError::Filters(e)),
            }
        },
{
    if n_mels != 80 && n_mels != 128 {
        return Err(AudioError::UnsupportedMels(n_mels));
    }
    let mut shape: Vec<usize> = Vec::new();
    shape.push(n_mels);
    shape.push(N_FFT / 2 + 1);
    proof {
        assert(item_count(shape@.take(0)) == 1);
        assert(shape@.take(1).drop_last() =~= shape@.take(0));
        assert(item_count(shape@.take(1)) == n_mels);
        assert(shape@.take(2).drop_last() =~= shape@.take(1));
        assert(item_count(shape@.take(2)) == n_mels * 201);
        assert(shape@.take(2) =~= shape@);
        assert(countable(shape@)) by {
            assert forall|n: int| 0 <= n <= shape@.len() implies item_count(
                #[trigger] shape@.take(n),
            ) <= usize::MAX by {
                assert(n == 0 || n == 1 || n == 2);
            }
        }
    }
    match load_npy_f32(file, &shape) {
        Ok(bits) => Ok(bits),
        Err(e) => Err(AudioError::Filters(e)),
    }
}

/// Argument `i` of the `ffmpeg` call that reads `file` as mono samples of 16 bits at `rate`.
pub open spec fn ffmpeg_arg(file: Seq<char>, rate: nat, i: int) -> Seq<char> {
    if i == 0 {
        "-nostdin"@
    } else if i == 1 {
        "-i"@
    } else if i == 2 {
        file
    } else if i == 3 {
        "-threads"@
    } else if i == 4 {
        "0"@
    } else if i == 5 {
        "-f"@
    } else if i == 6 {
        "s16le"@
    } else if i == 7 {
        "-ac"@
    } else if i == 8 {
        "1"@
    } else if i == 9 {
        "-acodec"@
    } else if i == 10 {
        "pcm_s16le"@
    } else if i == 11 {
        "-ar"@
    } else if i == 12 {
        decimal(rate)
    } else {
        "-"@
    }
}

/// The arguments of the `ffmpeg` call that reads `file` as mono samples of 16 bits at `sr`.
pub fn ffmpeg_args(file: &str, sr: usize) -> (r: Vec<String>)
    ensures
        r@.len() == 14,
        forall|i: int| 0 <= i < 14 ==> (#[trigger] r@[i])@ == ffmpeg_arg(file@, sr as nat, i),
{
    let digits = decimal_chars(sr as u64);
    let rate = string_of(&digits);
    let mut r: Vec<String> = Vec::new();
    r.push("-nostdin".to_owned());
    r.push("-i".to_owned());
    r.push(file.to_owned());
    r.push("-threads".to_owned());
    r.push("0".to_owned());
    r.push("-f".to_owned());
    r.push("s16le".to_owned());
    r.push("-ac".to_owned());
    r.push("1".to_owned());
    r.push("-acodec".to_owned());
    r.push("pcm_s16le".to_owned());
    r.push("-ar".to_owned());
    r.push(rate);
    r.push("-".to_owned());
    r
}

} // verus!
