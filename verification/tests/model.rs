//! The dimensions of a model, and the windows of its attention.

use mlx_whisper_rs::whisper::{
    decoder_window, encoder_window, kv_source, DecoderWindow, EncoderWindow, KvSource,
    ModelDimensions, WindowError,
};

fn dims_with_vocab(n_vocab: usize) -> ModelDimensions {
    ModelDimensions {
        n_mels: 80,
        n_audio_ctx: 2,
        n_audio_state: 8,
        n_audio_head: 2,
        n_audio_layer: 1,
        n_vocab,
        n_text_ctx: 4,
        n_text_state: 8,
        n_text_head: 2,
        n_text_layer: 2,
    }
}

#[test]
fn multilinguality_is_derived_from_the_vocabulary_size() {
    let english_only = dims_with_vocab(51864);
    assert!(!english_only.is_multilingual(), "51864 is English-only");
    assert_eq!(english_only.num_languages(), 51864 - 51765);

    let multilingual = dims_with_vocab(51865);
    assert!(multilingual.is_multilingual(), "51865 is multilingual");
    assert_eq!(multilingual.num_languages(), 99);

    let large_v3 = dims_with_vocab(51866);
    assert!(large_v3.is_multilingual(), "51866 is multilingual");
    assert_eq!(
        large_v3.num_languages(),
        100,
        "large-v3 has 100 languages: the 99 of large-v2 plus `yue`"
    );
}

#[test]
fn the_upper_half_of_the_layers_aligns() {
    assert_eq!(dims_with_vocab(51865).alignment_heads(), vec![1, 0, 1, 1]);
    let mut d = dims_with_vocab(51865);
    d.n_text_layer = 3;
    assert_eq!(d.alignment_heads(), vec![1, 0, 1, 1, 2, 0, 2, 1]);
    d.n_text_layer = 0;
    assert_eq!(d.alignment_heads(), Vec::<i32>::new());
}

#[test]
fn the_encoder_works_on_two_frames_for_each_position() {
    assert_eq!(
        encoder_window(None, 1500, 3000),
        Ok(EncoderWindow { mel_frames: 3000, positions: 1500 })
    );
    assert_eq!(
        encoder_window(Some(250), 1500, 3000),
        Ok(EncoderWindow { mel_frames: 500, positions: 250 })
    );
    assert_eq!(
        encoder_window(Some(1500), 1500, 3000),
        Ok(EncoderWindow { mel_frames: 3000, positions: 1500 })
    );
    for n in [0, 1501] {
        assert_eq!(
            encoder_window(Some(n), 1500, 3000),
            Err(WindowError::OutOfRange { audio_ctx: n, n_audio_ctx: 1500 })
        );
    }
    assert_eq!(
        encoder_window(Some(250), 1500, 499),
        Err(WindowError::TooFewFrames { audio_ctx: 250, mel_frames: 499 })
    );
}

#[test]
fn steps_of_the_decoder_go_on_behind_the_cache() {
    assert_eq!(decoder_window(None, 6), DecoderWindow { offset: 0, end: 6, masked: true });
    let mut cached = None;
    for i in 0..6 {
        let w = decoder_window(cached, 1);
        assert_eq!(w, DecoderWindow { offset: i, end: i + 1, masked: false });
        cached = Some(w.end);
    }
    assert_eq!(decoder_window(Some(6), 2), DecoderWindow { offset: 6, end: 8, masked: true });
}

#[test]
fn keys_of_the_text_grow_and_keys_of_the_audio_stay() {
    assert_eq!(kv_source(false, false), KvSource::Input);
    assert_eq!(kv_source(false, true), KvSource::CacheAndInput);
    assert_eq!(kv_source(true, false), KvSource::Audio);
    assert_eq!(kv_source(true, true), KvSource::Cache);
}
