//! Constants, padding, frames and mel filters.

use mlx_whisper_rs::audio::{
    ffmpeg_args, mel_filters, mel_filters_file, mel_frame_count, pad_or_trim, pad_plan,
    reflect_pad, stft_plan, AudioError, PadPlan, CHUNK_LENGTH, FRAMES_PER_SECOND, HOP_LENGTH,
    N_FFT, N_FRAMES, N_SAMPLES, N_SAMPLES_PER_TOKEN, SAMPLE_RATE, TOKENS_PER_SECOND,
};
use mlx_whisper_rs::npy::{load_npy_f32, NpyError};

/// A `.npy` file of version 1 or 2 with the given header and items.
fn npy(major: u8, header: &str, items: &[f32]) -> Vec<u8> {
    let mut out = vec![0x93, b'N', b'U', b'M', b'P', b'Y', major, 0];
    if major == 2 {
        out.extend((header.len() as u32).to_le_bytes());
    } else {
        out.extend((header.len() as u16).to_le_bytes());
    }
    out.extend(header.as_bytes());
    for x in items {
        out.extend(x.to_le_bytes());
    }
    out
}

const HEADER: &str = "{'descr': '<f4', 'fortran_order': False, 'shape': (2, 2), }\n";

#[test]
fn constants_match_upstream() {
    assert_eq!(SAMPLE_RATE, 16000);
    assert_eq!(N_FFT, 400);
    assert_eq!(HOP_LENGTH, 160);
    assert_eq!(CHUNK_LENGTH, 30);
    assert_eq!(N_SAMPLES, 480000);
    assert_eq!(N_FRAMES, 3000);
    assert_eq!(N_SAMPLES_PER_TOKEN, 320);
    assert_eq!(FRAMES_PER_SECOND, 100);
    assert_eq!(TOKENS_PER_SECOND, 50);
}

#[test]
fn mel_filterbanks_match_upstream() {
    for n_mels in [80usize, 128] {
        let header = format!(
            "{{'descr': '<f4', 'fortran_order': False, 'shape': ({n_mels}, 201), }}"
        );
        let values: Vec<f32> = (0..n_mels * 201).map(|i| i as f32 / 8.0).collect();
        let bits = mel_filters(n_mels, &npy(1, &header, &values)).unwrap();
        let got: Vec<f32> = bits.iter().map(|&b| f32::from_bits(b)).collect();
        assert_eq!(got, values);
        assert_eq!(mel_filters_file(n_mels).unwrap(), format!("mel_filters_{n_mels}.npy"));
    }
}

#[test]
fn mel_filters_of_other_sizes_are_refused() {
    assert_eq!(mel_filters(96, &[]), Err(AudioError::UnsupportedMels(96)));
    assert_eq!(mel_filters_file(0), Err(AudioError::UnsupportedMels(0)));
    assert_eq!(mel_filters(80, &[]), Err(AudioError::Filters(NpyError::NotNpy)));
}

#[test]
fn npy_floats_are_read_in_both_versions() {
    let values = [1.0f32, -2.5, 0.0, 1e10];
    let want: Vec<u32> = values.iter().map(|v| v.to_bits()).collect();
    assert_eq!(load_npy_f32(&npy(1, HEADER, &values), &[2, 2]), Ok(want.clone()));
    assert_eq!(load_npy_f32(&npy(2, HEADER, &values), &[2, 2]), Ok(want.clone()));
    let json = "{\"descr\": \"<f4\", \"fortran_order\": false}";
    assert_eq!(load_npy_f32(&npy(1, json, &values), &[4]), Ok(want));
}

#[test]
fn npy_errors_are_told_apart() {
    let values = [1.0f32, 2.0, 3.0, 4.0];
    let good = npy(1, HEADER, &values);
    assert_eq!(load_npy_f32(b"\x93NUMPY\x01", &[2, 2]), Err(NpyError::NotNpy));
    assert_eq!(load_npy_f32(b"\x93NUMPX\x01\x00\x00\x00\x00", &[2, 2]), Err(NpyError::NotNpy));
    assert_eq!(
        load_npy_f32(b"\x93NUMPY\x02\x00\x00\x00\x00", &[2, 2]),
        Err(NpyError::TruncatedVersion2)
    );
    assert_eq!(
        load_npy_f32(&npy(3, HEADER, &values), &[2, 2]),
        Err(NpyError::UnsupportedVersion(3))
    );
    assert_eq!(load_npy_f32(&good[..20], &[2, 2]), Err(NpyError::TruncatedHeader));
    let mut bad = good.clone();
    bad[12] = 0xff;
    assert_eq!(load_npy_f32(&bad, &[2, 2]), Err(NpyError::HeaderNotUtf8));
    let wide = "{'descr': '<f8', 'fortran_order': False}";
    assert_eq!(load_npy_f32(&npy(1, wide, &values), &[4]), Err(NpyError::NotFloat32));
    let columns = "{'descr': '<f4', 'fortran_order': True}";
    assert_eq!(load_npy_f32(&npy(1, columns, &values), &[4]), Err(NpyError::NotRowOrder));
    assert_eq!(load_npy_f32(&good[..good.len() - 1], &[2, 2]), Err(NpyError::TruncatedItem));
    assert_eq!(
        load_npy_f32(&good, &[5]),
        Err(NpyError::WrongCount { found: 4, expected: 5 })
    );
}

#[test]
fn log_mel_produces_the_upstream_frame_count() {
    // Two seconds of audio: a frame for every hop.
    assert_eq!(mel_frame_count(32_000, 0), Ok(200));
}

#[test]
fn log_mel_full_chunk_yields_exactly_n_frames() {
    assert_eq!(mel_frame_count(N_SAMPLES, 0), Ok(N_FRAMES));
}

#[test]
fn log_mel_padding_adds_exactly_n_frames() {
    for samples in [0usize, 201, 32_000, 32_001, 479_999, 1_000_003] {
        if samples > 200 {
            let unpadded = mel_frame_count(samples, 0).unwrap();
            let padded = mel_frame_count(samples, N_SAMPLES).unwrap();
            assert_eq!(padded - unpadded, N_FRAMES);
        } else {
            assert_eq!(
                mel_frame_count(samples, 0),
                Err(AudioError::TooShort { samples, needed: 201 })
            );
        }
    }
}

#[test]
fn stft_frames_are_planned() {
    let plan = stft_plan(400, 400, 160).unwrap();
    assert_eq!((plan.padding, plan.padded, plan.frames), (200, 800, 3));
    assert_eq!(
        stft_plan(200, 400, 160),
        Err(AudioError::TooShort { samples: 200, needed: 201 })
    );
}

#[test]
fn reflection_repeats_no_end() {
    assert_eq!(reflect_pad(&[1, 2, 3, 4], 2), vec![3, 2, 1, 2, 3, 4, 3, 2]);
    assert_eq!(reflect_pad(&[0.5f32, 1.5], 1), vec![1.5, 0.5, 1.5, 0.5]);
    assert_eq!(reflect_pad(&[7u8], 0), vec![7]);
}

#[test]
fn pad_or_trim_cases() {
    for (in_len, target) in [(10usize, 5usize), (5, 10), (7, 7), (0, 3), (3, 0), (3001, 3000)] {
        let data: Vec<f32> = (0..in_len).map(|i| i as f32).collect();
        let got = pad_or_trim(&data, 1, target, 0.0);
        assert_eq!(got.len(), target, "pad_or_trim({in_len} -> {target}) shape");
        if in_len >= target {
            for i in 0..target {
                assert_eq!(got[i], i as f32, "pad_or_trim should keep the prefix");
            }
        } else {
            for i in 0..in_len {
                assert_eq!(got[i], i as f32, "pad_or_trim must not disturb the head");
            }
            for i in in_len..target {
                assert_eq!(got[i], 0.0, "pad_or_trim must zero-fill the tail");
            }
        }
    }
}

#[test]
fn pad_or_trim_works_on_rows() {
    assert_eq!(pad_or_trim(&[1, 2, 3, 4], 2, 3, 0), vec![1, 2, 3, 4, 0, 0]);
    assert_eq!(pad_or_trim(&[1, 2, 3, 4, 5, 6], 2, 1, 0), vec![1, 2]);
    assert_eq!(pad_plan(5, 8), PadPlan { keep: 5, pad: 3 });
    assert_eq!(pad_plan(8, 5), PadPlan { keep: 5, pad: 0 });
}

#[test]
fn pad_or_trim_is_identity_at_exact_length() {
    let data: Vec<f32> = (0..N_FRAMES).map(|i| i as f32).collect();
    let got = pad_or_trim(&data, 1, N_FRAMES, 0.0);
    assert_eq!(got.len(), N_FRAMES);
    assert_eq!(got[0], 0.0);
    assert_eq!(got[N_FRAMES - 1], (N_FRAMES - 1) as f32);
    assert_eq!(pad_or_trim(&got, 1, N_FRAMES, 0.0), got);
}

#[test]
fn ffmpeg_is_asked_for_mono_samples() {
    assert_eq!(
        ffmpeg_args("a b.mp3", 16000),
        vec![
            "-nostdin", "-i", "a b.mp3", "-threads", "0", "-f", "s16le", "-ac", "1", "-acodec",
            "pcm_s16le", "-ar", "16000", "-",
        ]
    );
}
