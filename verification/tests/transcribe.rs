//! Transcribing in windows: segments, seeking, the text before, retries and languages.

use base64::Engine;
use mlx_whisper_rs::tokenizer::{get_tokenizer, Tokenizer};
use mlx_whisper_rs::transcribe::{
    best_language, cut_window, format_timestamp, initial_prompt_tokens, is_silence, language_keys,
    language_label, language_mask, language_source, undetected_language, Fallback, LanguageSource,
    Segment, TranscribeOptions, Transcription, Window,
};

/// The first timestamp of the tokenizer of these tests.
const TS: u32 = 377;
const HELLO: u32 = 260;

/// A tokenizer with 270 tokens of text, of which 260 is " hello".
fn tokenizer() -> Tokenizer {
    let b64 = base64::engine::general_purpose::STANDARD;
    let mut tokens: Vec<Vec<u8>> = (0..=255u8).map(|b| vec![b]).collect();
    for m in [" h", " he", " hel", " hell", " hello"] {
        tokens.push(m.as_bytes().to_vec());
    }
    let mut i = 0;
    while tokens.len() < 270 {
        tokens.push(format!("\u{1}{i:06}").into_bytes());
        i += 1;
    }
    let mut text = String::new();
    for (rank, token) in tokens.iter().enumerate() {
        text.push_str(&format!("{} {}\n", b64.encode(token), rank));
    }
    let tk = get_tokenizer(true, 99, Some("en"), None, &text).unwrap_or_else(|e| panic!("{e:?}"));
    assert_eq!(tk.timestamp_begin(), TS);
    assert_eq!(tk.encode(" hello"), vec![HELLO]);
    tk
}

fn window(seek: u64, size: u64) -> Window {
    Window { seek, size, stride: 2 }
}

fn times(segments: &[Segment]) -> Vec<(u64, u64)> {
    segments.iter().map(|s| (s.start, s.end)).collect()
}

#[test]
fn pairs_of_timestamps_cut_a_window() {
    let tk = tokenizer();
    let ids = [TS, HELLO, TS + 50, TS + 50, HELLO, HELLO, TS + 120, TS + 120, HELLO];
    let (segments, next) = cut_window(&tk, &window(1000, 3000), &ids);
    assert_eq!(times(&segments), vec![(1000, 1100), (1100, 1240)]);
    assert_eq!(segments[0].text, "hello");
    assert_eq!(segments[1].text, "hello hello");
    assert_eq!(segments[0].tokens, vec![TS, HELLO, TS + 50]);
    assert_eq!(segments[1].tokens, vec![TS + 50, HELLO, HELLO, TS + 120]);
    assert_eq!(segments[0].seek, 1000);
    // The next window starts where the last closed segment ends.
    assert_eq!(next, 1240);
}

#[test]
fn a_single_timestamp_at_the_end_closes_the_window() {
    let tk = tokenizer();
    let ids = [TS, HELLO, TS + 50, TS + 60, HELLO, TS + 100];
    let (segments, next) = cut_window(&tk, &window(0, 2500), &ids);
    assert_eq!(times(&segments), vec![(0, 100), (120, 200)]);
    assert_eq!(next, 2500);
}

#[test]
fn a_window_without_pairs_is_one_segment() {
    let tk = tokenizer();
    let (segments, next) = cut_window(&tk, &window(500, 3000), &[TS, HELLO, TS + 70]);
    assert_eq!(times(&segments), vec![(500, 640)]);
    assert_eq!(next, 3500);
    // The timestamp of 0 s says nothing of the end, and neither does text alone.
    let (segments, next) = cut_window(&tk, &window(500, 900), &[TS, HELLO]);
    assert_eq!(times(&segments), vec![(500, 1400)]);
    assert_eq!(next, 1400);
    let (segments, next) = cut_window(&tk, &window(500, 900), &[HELLO]);
    assert_eq!(times(&segments), vec![(500, 1400)]);
    assert_eq!(segments[0].text, "hello");
    assert_eq!(next, 1400);
    let (segments, _) = cut_window(&tk, &window(0, 900), &[]);
    assert_eq!(segments[0].text, "");
}

#[test]
fn seeking_always_goes_on() {
    let tk = tokenizer();
    // The pair closes nothing: the whole window is passed.
    let (segments, next) = cut_window(&tk, &window(700, 3000), &[TS, TS, HELLO]);
    assert_eq!(times(&segments), vec![(700, 700)]);
    assert_eq!(next, 3700);
    // A cut behind text counts from the start.
    let (segments, next) = cut_window(&tk, &window(0, 3000), &[HELLO, TS + 3, TS + 3]);
    assert_eq!(times(&segments), vec![(0, 6)]);
    assert_eq!(next, 6);
}

#[test]
fn a_transcript_is_made_window_by_window() {
    let tk = tokenizer();
    // 45 seconds of audio, and 30 of padding.
    let mut t = Transcription::new(vec![], 7500, 1500);
    assert_eq!(t.content_frames, 4500);
    assert_eq!(t.next_window(), Some(window(0, 3000)));
    assert_eq!(t.prompt(), None);
    let first = [TS, HELLO, TS + 1000, TS + 1000, HELLO];
    assert!(t.after_window(&tk, &first, Some(false), true, false));
    assert_eq!(t.next_window(), Some(window(2000, 2500)));
    assert_eq!(t.prompt(), Some(vec![TS, HELLO, TS + 1000]));
    // A blank segment and one without duration are dropped, with their tokens.
    let second =
        [TS, 32, TS + 10, TS + 10, HELLO, TS + 10, TS + 10, HELLO, TS + 20, TS + 20, HELLO, TS + 30];
    assert!(t.after_window(&tk, &second, None, true, false));
    assert_eq!(times(&t.segments), vec![(0, 2000), (2020, 2040), (2040, 2060)]);
    assert_eq!(t.next_window(), None);
    let r = t.finish(&tk, "en".to_string());
    assert_eq!(r.text, "hello hello hello");
    assert_eq!(r.language, "en");
    assert_eq!(r.segments.iter().map(|s| s.id).collect::<Vec<_>>(), vec![0, 1, 2]);
    assert_eq!(r.segments.iter().map(|s| s.seek).collect::<Vec<_>>(), vec![0, 2000, 2000]);
    assert_eq!(r.segments[2].tokens, vec![TS + 20, HELLO, TS + 30]);
}

#[test]
fn segments_lie_one_after_the_other() {
    let tk = tokenizer();
    let mut t = Transcription::new(vec![], 12000, 1500);
    let windows: [&[u32]; 3] = [
        &[TS + 5, HELLO, TS + 50, TS + 60, HELLO, TS + 900, TS + 901, HELLO],
        &[TS, HELLO, TS + 40, TS + 40, HELLO, TS + 1500],
        &[TS + 1, HELLO, TS + 1400],
    ];
    for ids in windows {
        let from = t.seek;
        t.accept(&tk, ids, true, false);
        assert!(t.seek > from);
        assert!(t.segments.iter().all(|s| s.start < s.end && s.end <= t.seek));
    }
    assert_eq!(
        times(&t.segments),
        vec![(10, 100), (120, 1800), (1800, 1880), (1880, 4800), (4800, 7600)]
    );
    assert!(t.segments.windows(2).all(|w| w[0].end <= w[1].start));
}

#[test]
fn silence_is_passed_over() {
    let tk = tokenizer();
    let mut t = Transcription::new(vec![], 6500, 1500);
    assert!(!t.after_window(&tk, &[HELLO], Some(true), true, false));
    assert_eq!(t.seek, 3000);
    assert_eq!(t.segments.len(), 0);
    assert_eq!(t.next_window(), Some(window(3000, 500)));
    assert!(t.after_window(&tk, &[HELLO], Some(false), true, false));
    assert_eq!(times(&t.segments), vec![(3000, 3500)]);
    assert!(t.segments.iter().all(|s| s.seek != 0));
    assert_eq!(t.next_window(), None);

    let mut t = Transcription::new(vec![1], 3400, 1500);
    t.skip_window();
    assert_eq!(t.seek, 400);

    assert!(is_silence(Some(true)));
    assert!(!is_silence(Some(false)));
    assert!(!is_silence(None));
}

#[test]
fn windows_are_given_full_frames() {
    // 35 seconds of audio: the second window reaches into the padding.
    let mut t = Transcription::new(vec![], 6500, 1500);
    let w = t.next_window().unwrap_or_else(|| panic!("there is audio"));
    assert_eq!(w.frames(), (0, 3000));
    t.skip_window();
    let w = t.next_window().unwrap_or_else(|| panic!("there is audio"));
    assert_eq!(w.size, 500);
    assert_eq!(w.frames(), (3000, 6000));
}

#[test]
fn audio_of_padding_alone_has_no_window() {
    assert_eq!(Transcription::new(vec![], 3000, 1500).next_window(), None);
    assert_eq!(Transcription::new(vec![], 10, 1500).next_window(), None);
    let t = Transcription::new(vec![], 3001, 1500);
    assert_eq!(t.next_window(), Some(window(0, 1)));
    assert_eq!(Transcription::new(vec![], 3001, 1000).stride, 3);
}

#[test]
fn the_text_before_is_given_to_the_next_window() {
    let tk = tokenizer();
    // With the text before, the prompt stays in front of it.
    let mut t = Transcription::new(vec![7, 8], 9500, 1500);
    assert_eq!(t.prompt(), Some(vec![7, 8]));
    t.accept(&tk, &[HELLO], true, false);
    assert_eq!(t.prompt(), Some(vec![7, 8, HELLO]));
    // A high temperature makes the next windows forget what came up to here.
    t.accept(&tk, &[HELLO], true, true);
    assert_eq!(t.prompt(), None);
    t.accept(&tk, &[TS, HELLO, TS + 9], true, false);
    assert_eq!(t.prompt(), Some(vec![TS, HELLO, TS + 9]));
    // The initial prompt is no part of the transcript.
    assert_eq!(t.finish(&tk, "fr".to_string()).text, "hello hello hello");
}

#[test]
fn without_the_text_before_only_the_first_window_has_the_prompt() {
    let tk = tokenizer();
    let mut t = Transcription::new(vec![7, 8], 9000, 1500);
    assert_eq!(t.prompt(), Some(vec![7, 8]));
    t.accept(&tk, &[HELLO], false, false);
    assert_eq!(t.prompt(), None);
    assert_eq!(t.all_tokens, vec![7, 8, HELLO]);
}

#[test]
fn initial_prompts_are_encoded_behind_a_space() {
    let tk = tokenizer();
    assert_eq!(initial_prompt_tokens(&tk, Some("  hello\n")), vec![HELLO]);
    assert_eq!(initial_prompt_tokens(&tk, Some(" ")), vec![32]);
    assert_eq!(initial_prompt_tokens(&tk, None), Vec::<u32>::new());
}

#[test]
fn a_bad_attempt_is_made_again() {
    let mut f = Fallback::new(3);
    assert_eq!(f.result(), None);
    assert_eq!(f.next_attempt(), Some(0));
    f.record(Some(true), Some(false), Some(false));
    assert_eq!(f.next_attempt(), Some(1));
    f.record(Some(false), Some(true), None);
    assert_eq!(f.next_attempt(), Some(2));
    f.record(Some(false), Some(false), Some(false));
    assert_eq!(f.next_attempt(), None);
    assert_eq!(f.result(), Some(2));
}

#[test]
fn the_first_good_attempt_ends_the_schedule() {
    for (repetitive, unlikely, no_speech) in [
        (Some(false), Some(false), Some(false)),
        (None, None, None),
        // Silence overrides the rest.
        (Some(true), Some(true), Some(true)),
    ] {
        let mut f = Fallback::new(6);
        f.record(repetitive, unlikely, no_speech);
        assert_eq!(f.next_attempt(), None);
        assert_eq!(f.result(), Some(0));
    }
}

#[test]
fn the_last_attempt_counts_where_all_are_bad() {
    let mut f = Fallback::new(2);
    f.record(Some(true), None, None);
    f.record(None, Some(true), None);
    assert_eq!(f.next_attempt(), None);
    assert_eq!(f.result(), Some(1));
    let f = Fallback::new(0);
    assert_eq!(f.next_attempt(), None);
    assert_eq!(f.result(), None);
}

#[test]
fn languages_are_given_or_detected() {
    assert_eq!(language_source(true, true), LanguageSource::Given);
    assert_eq!(language_source(true, false), LanguageSource::Given);
    assert_eq!(language_source(false, false), LanguageSource::English);
    assert_eq!(language_source(false, true), LanguageSource::Detected);
}

#[test]
fn a_model_of_english_takes_all_for_english() {
    assert_eq!(undetected_language(false).as_deref(), Some("en"));
    assert_eq!(undetected_language(true), None);
}

#[test]
fn only_language_tokens_are_open_for_detection() {
    assert_eq!(language_mask(&[1, 3, 9], 5), vec![true, false, true, false, true]);
    assert_eq!(language_mask(&[], 2), vec![true, true]);
}

#[test]
fn languages_without_a_token_have_no_key() {
    assert_eq!(language_keys(&[2, 0, 3], &[7, 8, 9]), vec![9, 7, 0]);
    assert_eq!(language_keys(&[], &[7]), Vec::<u32>::new());
}

#[test]
fn languages_are_called_by_their_names() {
    assert_eq!(language_label("de"), "German");
    assert_eq!(language_label("ht"), "Haitian creole");
    assert_eq!(language_label("zz"), "Zz");
    assert_eq!(language_label(""), "");
    assert_eq!(language_label("\u{e9}t"), "\u{e9}t");
}

#[test]
fn windows_are_decoded_with_the_options_of_the_transcript() {
    let mut o = TranscribeOptions::default();
    o.task = "translate".to_string();
    o.suppress_tokens = None;
    o.audio_ctx = Some(250);
    let w = o.window_options("fr", Some(vec![1]));
    assert_eq!(w.task, "translate");
    assert_eq!(w.language.as_deref(), Some("fr"));
    assert_eq!(w.sample_len, None);
    assert!(w.suppress_blank);
    assert_eq!(w.suppress_tokens, None);
    assert!(!w.without_timestamps);
    assert_eq!(w.max_initial_timestamp, Some(1_000_000));
    assert_eq!(w.prompt, Some(vec![1]));
    assert_eq!(w.audio_ctx, Some(250));
}

#[test]
fn the_likeliest_language_is_taken() {
    let codes: Vec<String> = ["en", "zh", "de"].iter().map(|c| c.to_string()).collect();
    assert_eq!(best_language(&codes, &vec![1, 5, 5]), "zh");
    assert_eq!(best_language(&codes, &vec![0, 0, 2]), "de");
    assert_eq!(best_language(&codes[1..].to_vec(), &vec![0, 0]), "en");
    assert_eq!(best_language(&vec![], &vec![]), "en");
}

#[test]
fn times_are_written_with_hours_where_there_are_any() {
    assert_eq!(format_timestamp(0), "00:00.000");
    assert_eq!(format_timestamp(61_234), "01:01.234");
    assert_eq!(format_timestamp(3_599_999), "59:59.999");
    assert_eq!(format_timestamp(3_600_000), "01:00:00.000");
    assert_eq!(format_timestamp(36_061_007), "10:01:01.007");
    assert_eq!(format_timestamp(360_000_000), "100:00:00.000");
}

#[test]
fn transcription_defaults() {
    let o = TranscribeOptions::default();
    assert_eq!(o.language, None);
    assert_eq!(o.task, "transcribe");
    assert!(o.condition_on_previous_text);
    assert_eq!(o.initial_prompt, None);
    assert!(o.suppress_blank);
    assert_eq!(o.suppress_tokens.as_deref(), Some("-1"));
    assert!(!o.without_timestamps);
    assert!(!o.verbose);
    assert_eq!(o.audio_ctx, None);
}
