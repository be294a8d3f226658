//! Audio in memory: WAV files and raw samples.

use mlx_whisper_rs::audio::{
    audio_from_pcm_s16le, audio_from_wav_bytes, Samples, WavAudio, WavError, SAMPLE_RATE,
};

/// A minimal WAV file.
fn wav(audio_format: u16, channels: u16, sample_rate: u32, bits: u16, data: &[u8]) -> Vec<u8> {
    let block_align = channels * bits / 8;
    let byte_rate = sample_rate * block_align as u32;
    let mut out = Vec::new();
    out.extend(b"RIFF");
    out.extend(((36 + data.len()) as u32).to_le_bytes());
    out.extend(b"WAVE");
    out.extend(b"fmt ");
    out.extend(16u32.to_le_bytes());
    out.extend(audio_format.to_le_bytes());
    out.extend(channels.to_le_bytes());
    out.extend(sample_rate.to_le_bytes());
    out.extend(byte_rate.to_le_bytes());
    out.extend(block_align.to_le_bytes());
    out.extend(bits.to_le_bytes());
    out.extend(b"data");
    out.extend((data.len() as u32).to_le_bytes());
    out.extend(data);
    out
}

fn s16(samples: &[i16]) -> Vec<u8> {
    samples.iter().flat_map(|s| s.to_le_bytes()).collect()
}

fn scaled(samples: &[i16]) -> Vec<f32> {
    samples.iter().map(|&s| s as f32 / 32768.0).collect()
}

/// The samples as floats, averaged over the channels.
fn mono(audio: &WavAudio) -> Vec<f32> {
    let interleaved: Vec<f32> = match &audio.samples {
        Samples::Pcm16(v) => scaled(v),
        Samples::Pcm32(v) => v.iter().map(|&s| s as f32 / 2_147_483_648.0).collect(),
        Samples::Float32(v) => v.iter().map(|&b| f32::from_bits(b)).collect(),
    };
    let ch = audio.channels as usize;
    interleaved
        .chunks_exact(ch)
        .map(|frame| frame.iter().sum::<f32>() / ch as f32)
        .collect()
}

fn error(bytes: &[u8]) -> WavError {
    match audio_from_wav_bytes(bytes) {
        Ok(_) => panic!("the bytes were accepted"),
        Err(e) => e,
    }
}

fn parsed(bytes: &[u8]) -> (WavAudio, u32) {
    match audio_from_wav_bytes(bytes) {
        Ok(r) => r,
        Err(e) => panic!("the bytes were refused: {e:?}"),
    }
}

#[test]
fn parses_mono_s16le() {
    let bytes = wav(1, 1, SAMPLE_RATE as u32, 16, &s16(&[0, 16384, -16384, 32767]));
    let (a, sr) = parsed(&bytes);

    assert_eq!(sr, SAMPLE_RATE as u32);
    let got = mono(&a);
    assert_eq!(got.len(), 4);

    assert_eq!(got[0], 0.0);
    assert!((got[1] - 0.5).abs() < 1e-6, "16384/32768 == 0.5, got {}", got[1]);
    assert!((got[2] + 0.5).abs() < 1e-6, "-16384/32768 == -0.5, got {}", got[2]);
    assert!(got[3] <= 1.0, "full-scale positive must not exceed 1.0");
}

#[test]
fn averages_stereo_to_mono() {
    let bytes = wav(1, 2, SAMPLE_RATE as u32, 16, &s16(&[16384, -16384, 8192, 8192]));
    let (a, _) = parsed(&bytes);

    let got = mono(&a);
    assert_eq!(got.len(), 2, "stereo must collapse to one sample per frame");
    assert!(got[0].abs() < 1e-6, "L+R downmix should cancel, got {}", got[0]);
    assert!((got[1] - 0.25).abs() < 1e-6, "equal channels should average, got {}", got[1]);
}

#[test]
fn drops_an_incomplete_frame() {
    let bytes = wav(1, 2, SAMPLE_RATE as u32, 16, &s16(&[1, 2, 3, 4, 5]));
    let (a, _) = parsed(&bytes);
    assert!(matches!(&a.samples, Samples::Pcm16(v) if *v == vec![1, 2, 3, 4]));
    assert_eq!(a.channels, 2);
}

#[test]
fn skips_odd_sized_chunks_before_data() {
    let payload = s16(&[16384, -16384]);
    let mut bytes = Vec::new();
    bytes.extend(b"RIFF");
    bytes.extend(0u32.to_le_bytes());
    bytes.extend(b"WAVE");
    bytes.extend(b"fmt ");
    bytes.extend(16u32.to_le_bytes());
    bytes.extend(1u16.to_le_bytes());
    bytes.extend(1u16.to_le_bytes());
    bytes.extend((SAMPLE_RATE as u32).to_le_bytes());
    bytes.extend((SAMPLE_RATE as u32 * 2).to_le_bytes());
    bytes.extend(2u16.to_le_bytes());
    bytes.extend(16u16.to_le_bytes());
    bytes.extend(b"LIST");
    bytes.extend(5u32.to_le_bytes());
    bytes.extend(b"INFOx");
    bytes.push(0);
    bytes.extend(b"data");
    bytes.extend((payload.len() as u32).to_le_bytes());
    bytes.extend(&payload);
    let n = (bytes.len() - 8) as u32;
    bytes[4..8].copy_from_slice(&n.to_le_bytes());

    let (a, _) = parsed(&bytes);
    assert_eq!(mono(&a).len(), 2);
    assert_eq!(mono(&a), vec![0.5, -0.5]);
}

#[test]
fn rejects_non_riff_input() {
    assert!(audio_from_wav_bytes(b"not a wav file at all").is_err());
    assert!(audio_from_wav_bytes(&[]).is_err());
    assert_eq!(error(b"not a wav file at all"), WavError::NotWav);
    assert_eq!(error(&[]), WavError::TooShort);
}

#[test]
fn rejects_truncated_fmt_chunk_without_panicking() {
    let mut bytes = Vec::new();
    bytes.extend(b"RIFF");
    bytes.extend(20u32.to_le_bytes());
    bytes.extend(b"WAVE");
    bytes.extend(b"fmt ");
    bytes.extend(16u32.to_le_bytes());
    bytes.extend(1u16.to_le_bytes());
    assert!(
        audio_from_wav_bytes(&bytes).is_err(),
        "a truncated fmt chunk must return Err, not panic"
    );
    assert_eq!(error(&bytes), WavError::FormatTruncated);
}

#[test]
fn rejects_a_small_fmt_chunk() {
    let mut bytes = wav(1, 1, 16000, 16, &s16(&[1, 2]));
    bytes[16..20].copy_from_slice(&15u32.to_le_bytes());
    assert_eq!(error(&bytes), WavError::FormatTooSmall);
}

#[test]
fn rejects_truncated_header_prefixes() {
    let full = wav(1, 1, SAMPLE_RATE as u32, 16, &s16(&[1, 2, 3, 4]));
    for len in 0..full.len().min(44) {
        assert!(
            audio_from_wav_bytes(&full[..len]).is_err(),
            "a {len}-byte prefix of a 44-byte header must return Err"
        );
    }
}

#[test]
fn clips_data_to_the_bytes_there_are() {
    let full = wav(1, 1, SAMPLE_RATE as u32, 16, &s16(&[1, 2, 3, 4]));
    let (a, _) = parsed(&full[..48]);
    assert!(matches!(&a.samples, Samples::Pcm16(v) if *v == vec![1, 2]));
}

#[test]
fn rejects_zero_channels() {
    let bytes = wav(1, 0, SAMPLE_RATE as u32, 16, &s16(&[1, 2]));
    assert!(
        audio_from_wav_bytes(&bytes).is_err(),
        "channels == 0 would divide by zero in the downmix"
    );
    assert_eq!(error(&bytes), WavError::MissingChunk);
}

#[test]
fn rejects_zero_sample_rate() {
    let bytes = wav(1, 1, 0, 16, &s16(&[1, 2]));
    match audio_from_wav_bytes(&bytes) {
        Err(_) => {}
        Ok((_, sr)) => assert_ne!(
            sr, 0,
            "a zero sample rate must be rejected, not reported back to the caller"
        ),
    }
    assert_eq!(error(&bytes), WavError::ZeroSampleRate);
}

#[test]
fn rejects_an_unknown_format() {
    let bytes = wav(1, 1, 16000, 24, &s16(&[1, 2, 3]));
    assert_eq!(
        error(&bytes),
        WavError::Unsupported { audio_format: 1, bits_per_sample: 24 }
    );
    let bytes = wav(3, 1, 16000, 16, &s16(&[1, 2]));
    assert_eq!(
        error(&bytes),
        WavError::Unsupported { audio_format: 3, bits_per_sample: 16 }
    );
}

#[test]
fn reports_non_16k_sample_rate_to_the_caller() {
    let bytes = wav(1, 1, 44_100, 16, &s16(&[1, 2, 3, 4]));
    let (_, sr) = parsed(&bytes);
    assert_eq!(sr, 44_100, "the true sample rate must reach the caller");
    assert_ne!(sr, SAMPLE_RATE as u32);
}

#[test]
fn parses_float32_payload() {
    let data: Vec<u8> = [0.0f32, 0.5, -0.5, 1.0].iter().flat_map(|f| f.to_le_bytes()).collect();
    let bytes = wav(3, 1, SAMPLE_RATE as u32, 32, &data);
    let (a, _) = parsed(&bytes);
    let got = mono(&a);
    assert_eq!(got.len(), 4);
    assert!((got[1] - 0.5).abs() < 1e-6);
    assert!((got[2] + 0.5).abs() < 1e-6);
}

#[test]
fn parses_s32_payload() {
    let data: Vec<u8> = [0i32, i32::MIN, 1 << 30].iter().flat_map(|v| v.to_le_bytes()).collect();
    let (a, _) = parsed(&wav(1, 1, SAMPLE_RATE as u32, 32, &data));
    assert!(matches!(&a.samples, Samples::Pcm32(v) if *v == vec![0, i32::MIN, 1 << 30]));
    assert_eq!(mono(&a), vec![0.0, -1.0, 0.5]);
}

#[test]
fn pcm_s16le_matches_wav_payload_scaling() {
    let samples = [0i16, 16384, -16384, 32767];
    let raw = audio_from_pcm_s16le(&s16(&samples));
    let (from_wav, _) = parsed(&wav(1, 1, SAMPLE_RATE as u32, 16, &s16(&samples)));
    assert_eq!(scaled(&raw), mono(&from_wav));
}

#[test]
fn pcm_s16le_ignores_a_trailing_odd_byte() {
    let mut bytes = s16(&[1000, -1000]);
    bytes.push(0x7f);
    let a = audio_from_pcm_s16le(&bytes);
    assert_eq!(a.len(), 2, "a trailing half-sample must be discarded");
    assert_eq!(a, vec![1000, -1000]);
}

#[test]
fn pcm_s16le_handles_empty_input() {
    let a = audio_from_pcm_s16le(&[]);
    assert_eq!(a.len(), 0);
}
