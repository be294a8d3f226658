//! Decoding one window: the masks, the timestamp rules, the loop and the result.

use base64::Engine;
use mlx_whisper_rs::decoding::{
    apply_suppress_blank, apply_suppress_tokens, apply_timestamp_rules, base_mask, blank_mask,
    build_mask, compression_ratio, decode_plain, finish, greedy_token, initial_tokens, parse_list,
    ratio_from, sot_index, suppress_mask, suppressed_ids, timestamp_mask, DecodeSession,
    DecodingOptions, StampLayout, TokenFilters,
};
use mlx_whisper_rs::tokenizer::{get_tokenizer, Tokenizer};

/// The number of logits of a large model.
const N_VOCAB: usize = 51866;

/// A vocabulary of `total` tokens: the single bytes, those that " hello" is merged by, and tokens
/// that no text is merged to.
fn vocabulary(total: usize) -> String {
    let b64 = base64::engine::general_purpose::STANDARD;
    let mut tokens: Vec<Vec<u8>> = (0..=255u8).map(|b| vec![b]).collect();
    for m in [" h", " he", " hel", " hell", " hello"] {
        tokens.push(m.as_bytes().to_vec());
    }
    let mut i = 0;
    while tokens.len() < total {
        tokens.push(format!("\u{1}{i:06}").into_bytes());
        i += 1;
    }
    let mut text = String::new();
    for (rank, token) in tokens.iter().enumerate() {
        text.push_str(&format!("{} {}\n", b64.encode(token), rank));
    }
    text
}

fn tokenizer() -> Tokenizer {
    get_tokenizer(true, 99, Some("en"), Some("transcribe"), &vocabulary(50257))
        .unwrap_or_else(|e| panic!("{e:?}"))
}

/// A tokenizer with 270 tokens of text: the end of the text is 270, the start of the transcript
/// 271, and the timestamps start at 377.
fn small(language: &str) -> Tokenizer {
    get_tokenizer(true, 99, Some(language), None, &vocabulary(270))
        .unwrap_or_else(|e| panic!("{e:?}"))
}

/// Logits of text that outweighs the timestamps.
fn synth_logits_row0(n_vocab: usize, ts_begin: usize) -> Vec<f32> {
    let mut all = Vec::with_capacity(n_vocab);
    let mut state: u64 = 12345;
    for _ in 0..n_vocab {
        state = state
            .wrapping_mul(6_364_136_223_846_793_005)
            .wrapping_add(1_442_695_040_888_963_407);
        let u = (state >> 40) as f32 / (1u32 << 24) as f32;
        all.push(u * 16.0 - 8.0);
    }
    for v in all.iter_mut().skip(ts_begin) {
        *v -= 12.0;
    }
    all
}

fn log_sum_exp(row: &[f32]) -> f32 {
    let max = row.iter().cloned().fold(f32::NEG_INFINITY, f32::max);
    max + row.iter().map(|v| (v - max).exp()).sum::<f32>().ln()
}

/// The rules on logits: what is suppressed comes out as negative infinity.
fn rules(
    logits: &[f32],
    tokens: &[u32],
    sample_begin: usize,
    tk: &Tokenizer,
    max_index: Option<usize>,
) -> Vec<f32> {
    let layout = tk.stamp_layout();
    let ts = layout.ts_begin;
    let max_text = logits[..ts].iter().cloned().fold(f32::NEG_INFINITY, f32::max);
    let win = log_sum_exp(&logits[ts..]) > max_text;
    let none = vec![false; logits.len()];
    let mask = apply_timestamp_rules(&none, tokens, sample_begin, &layout, max_index, win);
    logits
        .iter()
        .zip(mask)
        .map(|(v, m)| if m { f32::NEG_INFINITY } else { *v })
        .collect()
}

fn positions(mask: &[bool]) -> Vec<usize> {
    mask.iter().enumerate().filter(|(_, m)| **m).map(|(i, _)| i).collect()
}

/// A number that is larger for a larger logit.
fn key(v: f32) -> u32 {
    let bits = v.to_bits();
    if bits >> 31 == 1 { !bits } else { bits | 0x8000_0000 }
}

fn ratio(text: &str) -> f32 {
    let (a, b) = compression_ratio(text);
    a as f32 / b as f32
}

#[test]
fn compression_ratio_empty_is_zero() {
    assert_eq!(ratio(""), 0.0);
    assert_eq!(compression_ratio(""), (0, 1));
}

#[test]
fn compression_ratio_grows_with_redundancy() {
    let varied = ratio("the quick brown fox jumps over the lazy dog");
    let repetitive = ratio(&"a".repeat(200));
    assert!(
        repetitive > varied,
        "a highly compressible string must score higher ({repetitive} vs {varied})"
    );
    assert!(varied > 0.0);
}

#[test]
fn compression_ratio_matches_cpython_zlib() {
    let thanks = "Thank you. ".repeat(40);
    let a = "a".repeat(200);
    for (text, raw, compressed) in [
        ("the quick brown fox jumps over the lazy dog", 43, 50),
        (a.as_str(), 200, 12),
        ("Hello world", 11, 19),
        ("hello hello hello hello hello hello hello hello", 47, 17),
        (thanks.as_str(), 440, 24),
        ("\u{65e5}\u{672c}\u{8a9e}\u{65e5}\u{672c}\u{8a9e}", 18, 21),
        ("x", 1, 9),
    ] {
        let want = raw as f64 / compressed as f64;
        let got = ratio(text) as f64;
        assert!(
            (got - want).abs() < 1e-6,
            "compression_ratio({text:?}) = {got}, zlib gives {want}"
        );
    }
}

#[test]
fn ratios_of_given_sizes() {
    assert_eq!(ratio_from(0, Some(8)), (0, 1));
    assert_eq!(ratio_from(0, None), (0, 1));
    assert_eq!(ratio_from(43, Some(50)), (43, 50));
    assert_eq!(ratio_from(43, Some(0)), (1, 1));
    assert_eq!(ratio_from(43, None), (1, 1));
}

#[test]
fn suppress_blank_applies_only_at_sample_begin() {
    let none = vec![false; 16];
    let mask = build_mask(&[3, 7], 16);

    let at = apply_suppress_blank(&none, 5, 5, &mask);
    assert_eq!(positions(&at), vec![3, 7]);

    for tokens_len in [4usize, 6] {
        let off = apply_suppress_blank(&none, tokens_len, 5, &mask);
        assert!(
            positions(&off).is_empty(),
            "SuppressBlank must be inert at tokens_len {tokens_len} (sample_begin 5)"
        );
    }
}

#[test]
fn suppress_blank_mask_is_space_plus_eot() {
    let tk = tokenizer();
    let mut want = tk.encode(" ");
    want.push(tk.eot());
    want.sort_unstable();

    let want: Vec<usize> = want.iter().map(|&t| t as usize).collect();
    assert_eq!(want, vec![32, 50257]);
    assert_eq!(positions(&build_mask(&[32, 50257], N_VOCAB)), want);
    assert_eq!(positions(&blank_mask(&tk, N_VOCAB)), want);
}

#[test]
fn masks_leave_ids_beyond_the_vocabulary_out() {
    assert_eq!(positions(&build_mask(&[3, 16, u32::MAX, 0, 3], 16)), vec![0, 3]);
    assert_eq!(build_mask(&[1], 0), Vec::<bool>::new());
}

#[test]
fn masks_are_put_together() {
    let a = build_mask(&[1], 4);
    let b = build_mask(&[1, 3], 4);
    assert_eq!(positions(&apply_suppress_tokens(&a, &b)), vec![1, 3]);
    assert_eq!(positions(&base_mask(2, 2, Some(&a), &build_mask(&[3], 4))), vec![1, 3]);
    assert_eq!(positions(&base_mask(3, 2, Some(&a), &build_mask(&[3], 4))), vec![3]);
    assert_eq!(positions(&base_mask(2, 2, None, &build_mask(&[3], 4))), vec![3]);
}

#[test]
fn lists_of_tokens_are_read_leniently() {
    assert_eq!(parse_list("-1"), vec![-1]);
    assert_eq!(parse_list(" 3, x, +4 ,, 5.0, 9223372036854775807"), vec![3, 4, i64::MAX]);
    assert_eq!(parse_list("9223372036854775808,-9223372036854775808"), vec![i64::MIN]);
    assert_eq!(parse_list(""), Vec::<i64>::new());
}

#[test]
fn control_tokens_are_always_suppressed() {
    let tk = small("en");
    let control = vec![271, 371, 372, 373, 374, 375];
    let mut ids = suppressed_ids(&tk, None);
    ids.sort_unstable();
    assert_eq!(ids, control);
    assert_eq!(tk.no_timestamps(), 376);

    let mut ids = suppressed_ids(&tk, Some("5, -2, 4294967303"));
    ids.sort_unstable();
    assert_eq!(ids, vec![5, 7, 271, 371, 372, 373, 374, 375]);

    // With -1 in the list, its other numbers do not count.
    let mut ids = suppressed_ids(&tk, Some("5,-1"));
    ids.sort_unstable();
    let mut want = tk.non_speech_tokens();
    assert!(!want.contains(&5));
    want.extend(control);
    assert_eq!(ids, want);

    let mask = suppress_mask(&tk, Some("5"), 300);
    assert_eq!(positions(&mask), vec![5, 271]);
}

#[test]
fn timestamp_rules_always_suppress_no_timestamps() {
    let tk = tokenizer();
    let ts_begin = tk.timestamp_begin() as usize;
    let logits = synth_logits_row0(N_VOCAB, ts_begin);
    let sot = tk.sot_sequence.clone();
    let sample_begin = sot.len();

    let text_tok = tk.encode(" hello")[0];
    let seqs: Vec<Vec<u32>> = vec![
        sot.clone(),
        {
            let mut s = sot.clone();
            s.push(ts_begin as u32 + 10);
            s.push(text_tok);
            s
        },
        {
            let mut s = sot.clone();
            s.push(ts_begin as u32 + 10);
            s
        },
    ];

    for seq in seqs {
        let row = rules(&logits, &seq, sample_begin, &tk, None);
        assert!(
            row[tk.no_timestamps() as usize].is_infinite(),
            "<|notimestamps|> must be suppressed at every step (seq len {})",
            seq.len()
        );
    }
}

#[test]
fn timestamp_rules_force_a_timestamp_at_the_initial_position() {
    let tk = tokenizer();
    let ts_begin = tk.timestamp_begin() as usize;
    let logits = synth_logits_row0(N_VOCAB, ts_begin);
    let sot = tk.sot_sequence.clone();

    let row = rules(&logits, &sot, sot.len(), &tk, None);

    for i in 0..ts_begin {
        assert!(
            row[i].is_infinite(),
            "every non-timestamp token must be suppressed at the initial position (index {i})"
        );
    }
    assert!(
        row[ts_begin].is_finite(),
        "the timestamp region must stay open at the initial position"
    );
}

#[test]
fn timestamp_rules_max_initial_timestamp_boundary_is_inclusive() {
    let tk = tokenizer();
    let ts_begin = tk.timestamp_begin() as usize;
    let logits = synth_logits_row0(N_VOCAB, ts_begin);
    let sot = tk.sot_sequence.clone();
    let max_idx = 50usize; // round(1.0 / (30 / 1500))

    let row = rules(&logits, &sot, sot.len(), &tk, Some(max_idx));

    assert!(
        row[ts_begin + max_idx].is_finite(),
        "ts_begin + max_initial_timestamp_index must remain ALLOWED (inclusive bound)"
    );
    assert!(
        row[ts_begin + max_idx + 1].is_infinite(),
        "one past the bound must be suppressed"
    );
}

#[test]
fn timestamp_rules_pair_constraint_after_two_timestamps() {
    let tk = tokenizer();
    let ts_begin = tk.timestamp_begin() as usize;
    let logits = synth_logits_row0(N_VOCAB, ts_begin);

    let mut seq = tk.sot_sequence.clone();
    let sample_begin = seq.len();
    seq.push(ts_begin as u32 + 10);
    seq.push(ts_begin as u32 + 20);

    let row = rules(&logits, &seq, sample_begin, &tk, None);
    for i in ts_begin..N_VOCAB {
        assert!(
            row[i].is_infinite(),
            "after two consecutive timestamps the whole timestamp region must be closed (index {i})"
        );
    }
}

#[test]
fn timestamp_rules_text_is_closed_after_a_lone_timestamp() {
    let tk = tokenizer();
    let ts_begin = tk.timestamp_begin() as usize;
    let eot = tk.eot() as usize;
    let logits = synth_logits_row0(N_VOCAB, ts_begin);

    let mut seq = tk.sot_sequence.clone();
    let sample_begin = seq.len();
    seq.push(tk.encode(" hello")[0]);
    seq.push(ts_begin as u32 + 10);

    let row = rules(&logits, &seq, sample_begin, &tk, None);

    for i in 0..eot {
        assert!(row[i].is_infinite(), "text token {i} must be closed");
    }
    assert!(
        row[eot].is_finite(),
        "EOT must remain reachable directly after a timestamp"
    );
}

#[test]
fn timestamp_rules_enforce_monotonic_timestamps() {
    let tk = tokenizer();
    let ts_begin = tk.timestamp_begin() as usize;
    let logits = synth_logits_row0(N_VOCAB, ts_begin);
    let text_tok = tk.encode(" hello")[0];

    let mut seq = tk.sot_sequence.clone();
    let sample_begin = seq.len();
    seq.push(ts_begin as u32 + 50);
    seq.push(text_tok);

    let row = rules(&logits, &seq, sample_begin, &tk, None);

    assert!(
        row[ts_begin + 10].is_infinite(),
        "a timestamp earlier than the last one must be suppressed"
    );
    assert!(
        row[ts_begin + 51].is_finite(),
        "a later timestamp must stay allowed"
    );
    assert!(
        row[ts_begin + 50].is_infinite(),
        "repeating the last timestamp would produce a zero-length segment"
    );
}

#[test]
fn timestamp_rules_normalise_unmasked_logits() {
    let tk = tokenizer();
    let ts_begin = tk.timestamp_begin() as usize;
    let eot = tk.eot() as usize;

    let mut v = vec![-10.0f32; N_VOCAB];
    v[100] = 20.0;
    for x in v.iter_mut().skip(ts_begin) {
        *x = 0.0;
    }

    let mut seq = tk.sot_sequence.clone();
    let sample_begin = seq.len();
    seq.push(tk.encode(" hello")[0]);
    seq.push(ts_begin as u32 + 10);

    let row = rules(&v, &seq, sample_begin, &tk, None);

    assert!(
        row[eot].is_finite(),
        "the timestamp-vs-text rule was evaluated on the masked logits"
    );
}

#[test]
fn likelier_timestamps_close_the_text() {
    let layout = StampLayout { ts_begin: 6, eot: 3, no_timestamps: 5 };
    let none = vec![false; 9];
    // Text is the last token: the rules themselves close two tokens only.
    let mask = apply_timestamp_rules(&none, &[4, 6, 1], 1, &layout, None, false);
    assert_eq!(positions(&mask), vec![5]);
    let mask = apply_timestamp_rules(&none, &[4, 6, 1], 1, &layout, None, true);
    assert_eq!(positions(&mask), vec![0, 1, 2, 3, 4, 5]);
    // What was suppressed stays so.
    let mask = apply_timestamp_rules(&build_mask(&[7], 9), &[4, 6, 1], 1, &layout, None, false);
    assert_eq!(positions(&mask), vec![5, 7]);
    // Without timestamps among the tokens there is nothing to weigh.
    let none = vec![false; 6];
    let mask = apply_timestamp_rules(&none, &[4, 6, 1], 1, &layout, None, true);
    assert_eq!(positions(&mask), vec![5]);
}

#[test]
fn timestamp_masks_step_by_step() {
    let layout = StampLayout { ts_begin: 6, eot: 3, no_timestamps: 5 };
    let mask = |tokens: &[u32], max: Option<usize>| {
        positions(&timestamp_mask(tokens, 1, &layout, max, 12))
    };
    assert_eq!(mask(&[4], None), vec![0, 1, 2, 3, 4, 5]);
    assert_eq!(mask(&[4], Some(2)), vec![0, 1, 2, 3, 4, 5, 9, 10, 11]);
    // One timestamp counts as two.
    assert_eq!(mask(&[4, 6], Some(2)), vec![5, 6, 7, 8, 9, 10, 11]);
    // Text after the timestamp of 0 s closes no timestamp.
    assert_eq!(mask(&[4, 6, 0], None), vec![5]);
    assert_eq!(mask(&[4, 8, 0], None), vec![5, 6, 7, 8]);
    // Text and a timestamp: no text, nothing before the timestamp, but the timestamp again.
    assert_eq!(mask(&[4, 8, 0, 9], None), vec![0, 1, 2, 5, 6, 7, 8]);
    assert_eq!(mask(&[4, 8, 0, 9, 9], None), vec![5, 6, 7, 8, 9, 10, 11]);
}

#[test]
fn filters_go_by_the_options() {
    let tk = small("en");
    let n = 380;
    let mut options = DecodingOptions::default();
    options.suppress_tokens = Some("5".to_string());
    options.max_initial_timestamp = Some(20_000);
    let filters = TokenFilters::new(&tk, &options, n, 1500);
    assert_eq!(filters.max_index, Some(1));
    let control = [5, 271, 371, 372, 373, 374, 375];
    assert_eq!(positions(&filters.suppress), control);
    assert_eq!(filters.blank.as_ref().map(|b| positions(b)), Some(vec![32, 270]));
    assert_eq!(positions(&filters.before_rules(4, 3)), control);
    assert_eq!(positions(&filters.before_rules(3, 3)), [5, 32, 270, 271, 371, 372, 373, 374, 375]);
    // First a timestamp, of which the first two are allowed.
    let first = filters.mask(&tk.sot_sequence, 3, false);
    assert_eq!(first.iter().enumerate().filter(|(_, m)| !**m).map(|(i, _)| i).collect::<Vec<_>>(), [377, 378]);
    // Then text, unless timestamps are likelier.
    let tokens = [271, 272, 372, 377, 97];
    let mut want = control.to_vec();
    want.push(376);
    assert_eq!(positions(&filters.mask(&tokens, 3, false)), want);
    assert_eq!(positions(&filters.mask(&tokens, 3, true)), (0..377).collect::<Vec<_>>());

    // Without timestamps and blanks only the list counts.
    options.without_timestamps = true;
    options.suppress_blank = false;
    let filters = TokenFilters::new(&tk, &options, n, 1500);
    assert!(filters.blank.is_none());
    assert_eq!(filters.max_index, None);
    assert_eq!(positions(&filters.mask(&tk.sot_sequence, 3, true)), control);
}

#[test]
fn greedy_decoding_obeys_the_rules() {
    let tk = small("en");
    let (n, ts) = (400, tk.timestamp_begin());
    let mut options = DecodingOptions::default();
    options.max_initial_timestamp = Some(60_000);
    let filters = TokenFilters::new(&tk, &options, n, 1500);
    let mut state: u64 = 1;
    for _ in 0..50 {
        let mut s = options.start(&tk, 64);
        while !s.is_done() {
            let keys: Vec<u32> = (0..n)
                .map(|_| {
                    state = state
                        .wrapping_mul(6_364_136_223_846_793_005)
                        .wrapping_add(1_442_695_040_888_963_407);
                    (state >> 32) as u32
                })
                .collect();
            let mask = filters.mask(&s.tokens, s.sample_begin, false);
            let next = greedy_token(&keys, &mask).unwrap_or_else(|| panic!("nothing is open"));
            assert!(!mask[next]);
            s.push(next as u32);
        }
        let sampled = &s.tokens[s.sample_begin..];
        // First a timestamp that is allowed there, and then none that goes back.
        assert!(sampled[0] >= ts && sampled[0] <= ts + 3);
        let stamps: Vec<u32> = sampled.iter().copied().filter(|t| *t >= ts).collect();
        assert!(stamps.windows(2).all(|w| w[0] <= w[1]), "{sampled:?}");
        // Never three timestamps in a row, and no control token.
        assert!(sampled.windows(3).all(|w| w.iter().any(|t| *t < ts)), "{sampled:?}");
        assert!(sampled.iter().all(|t| ![271, 371, 372, 373, 374, 375, 376].contains(t)));
    }
}

#[test]
fn windows_start_as_the_options_say() {
    let tk = small("en");
    let mut options = DecodingOptions::default();
    let s = options.start(&tk, 448);
    assert_eq!(s.tokens, vec![271, 272, 372]);
    assert_eq!((s.sample_begin, s.sample_len, s.n_text_ctx, s.eot), (3, 224, 448, 270));
    options.prompt = Some(vec![7]);
    options.without_timestamps = true;
    options.sample_len = Some(9);
    let s = options.start(&tk, 448);
    assert_eq!(s.tokens, vec![374, 7, 271, 272, 372, 376]);
    assert_eq!((s.sample_begin, s.sample_len), (6, 9));
}

#[test]
fn greedy_selection_never_picks_a_suppressed_token() {
    let mut v = vec![0.0f32; 32];
    v[7] = 10.0;
    v[3] = 5.0;
    let suppressed = build_mask(&[7], 32);

    let keys: Vec<u32> = v.iter().map(|&x| key(x)).collect();
    assert_eq!(greedy_token(&keys, &suppressed), Some(3), "greedy selection must skip -inf entries");
    assert_eq!(greedy_token(&keys, &vec![false; 32]), Some(7));
    assert_eq!(greedy_token(&keys, &vec![true; 32]), None);
    // The first of equal tokens is taken.
    assert_eq!(greedy_token(&[2, 9, 9], &[false, false, false]), Some(1));
}

#[test]
fn decoding_starts_from_the_prompt_and_the_start_sequence() {
    let tk = small("en");
    assert_eq!(initial_tokens(&tk, false, None, 448), vec![271, 272, 372]);
    assert_eq!(initial_tokens(&tk, true, None, 448), vec![271, 272, 372, 376]);
    assert_eq!(initial_tokens(&tk, false, Some(&vec![]), 448), vec![271, 272, 372]);
    assert_eq!(initial_tokens(&tk, false, Some(&vec![1, 2]), 448), vec![374, 1, 2, 271, 272, 372]);
    // Only the last tokens of a long prompt fit in half of the text context.
    let long: Vec<u32> = (0..10).collect();
    assert_eq!(initial_tokens(&tk, true, Some(&long), 8), vec![374, 7, 8, 9, 271, 272, 372, 376]);
    assert_eq!(initial_tokens(&tk, false, Some(&long), 2), vec![374, 271, 272, 372]);
    assert_eq!(sot_index(&[374, 1, 271, 272, 271], 271), 2);
    assert_eq!(sot_index(&[1, 2], 271), 0);
}

#[test]
fn sessions_stop_at_the_end_of_the_text() {
    let mut s = DecodeSession::new(vec![9, 9], None, 20, 5);
    assert_eq!(s.sample_len, 10);
    assert!(!s.is_done());
    assert_eq!(s.input_start(), 0);
    s.push(1);
    assert_eq!(s.input_start(), 2);
    assert!(!s.is_done());
    s.push(2);
    s.push(5);
    assert!(s.is_done());
    assert_eq!(s.tokens, vec![9, 9, 1, 2, 5]);
    assert_eq!(s.result_tokens(), vec![1, 2]);
}

#[test]
fn sessions_stop_when_enough_was_sampled() {
    let mut s = DecodeSession::new(vec![9], Some(2), 20, 5);
    s.push(1);
    assert!(!s.is_done());
    s.push(2);
    assert!(s.is_done());
    assert_eq!(s.result_tokens(), vec![1, 2]);

    // Nothing is sampled where nothing may be.
    let s = DecodeSession::new(vec![9], Some(0), 20, 5);
    assert!(s.is_done());
    assert_eq!(s.result_tokens(), Vec::<u32>::new());
    let s = DecodeSession::new(vec![9], None, 1, 5);
    assert_eq!(s.sample_len, 0);
    assert!(s.is_done());

    let mut s = DecodeSession::new(vec![9], Some(1), 20, 5);
    assert!(!s.is_done());
    s.push(1);
    assert!(s.is_done());
    assert_eq!(s.result_tokens(), vec![1]);
}

#[test]
fn a_window_without_samples_has_no_text() {
    let tk = small("en");
    let mut options = DecodingOptions::default();
    options.sample_len = Some(0);
    let s = options.start(&tk, 448);
    assert!(s.is_done());
    assert_eq!(s.input_start(), 0);
    let r = finish(&s, &tk);
    assert_eq!(r.tokens, Vec::<u32>::new());
    assert_eq!(r.text, "");
    assert_eq!(r.compression_ratio, (0, 1));
}

#[test]
fn the_first_timestamp_is_limited_in_time() {
    // A second is 50 timestamps of 20 ms, or 5 of 200 ms.
    let mut options = DecodingOptions::default();
    assert_eq!(options.max_initial_index(1500), Some(50));
    assert_eq!(options.max_initial_index(150), Some(5));
    assert_eq!(options.max_initial_index(0), Some(0));
    // To the nearest one, the later one of two.
    options.max_initial_timestamp = Some(29_999);
    assert_eq!(options.max_initial_index(1500), Some(1));
    options.max_initial_timestamp = Some(30_000);
    assert_eq!(options.max_initial_index(1500), Some(2));
    options.max_initial_timestamp = Some(30_000_000);
    assert_eq!(options.max_initial_index(1500), Some(1500));
    options.max_initial_timestamp = Some(u64::MAX);
    assert_eq!(options.max_initial_index(usize::MAX), Some(usize::MAX));
    options.without_timestamps = true;
    assert_eq!(options.max_initial_index(1500), None);
    options.without_timestamps = false;
    options.max_initial_timestamp = None;
    assert_eq!(options.max_initial_index(1500), None);
}

#[test]
fn sessions_stop_when_the_text_context_is_full() {
    let mut s = DecodeSession::new(vec![9, 9], Some(100), 4, 5);
    for t in 0..3 {
        assert!(!s.is_done(), "after {t} tokens");
        s.push(t);
    }
    assert!(s.is_done());
    assert_eq!(s.tokens.len(), 5);
}

#[test]
fn results_hold_the_text() {
    let tk = small("fr");
    let ts = tk.timestamp_begin();
    let hello = tk.encode(" hello")[0];
    let mut s = DecodeSession::new(tk.sot_sequence.clone(), None, 448, tk.eot());
    for t in [ts, hello, hello, ts + 50, tk.eot()] {
        s.push(t);
    }
    let r = finish(&s, &tk);
    assert_eq!(r.tokens, vec![ts, hello, hello, ts + 50]);
    assert_eq!(r.text, "hello hello");
    assert_eq!(r.language, "fr");
    assert_eq!(r.compression_ratio, compression_ratio("hello hello"));
    assert_eq!(r.compression_ratio.0, 11);
    assert!(r.compression_ratio.1 > 0);

    let english = get_tokenizer(false, 99, None, None, &vocabulary(270))
        .unwrap_or_else(|e| panic!("{e:?}"));
    let mut s = DecodeSession::new(english.sot_sequence.clone(), None, 448, english.eot());
    s.push(english.eot());
    let r = finish(&s, &english);
    assert_eq!(r.language, "en");
    assert_eq!(r.tokens, Vec::<u32>::new());
    assert_eq!(r.text, "");
    assert_eq!(r.compression_ratio, (0, 1));
}

#[test]
fn plain_text_has_no_white_space_at_its_ends() {
    let tk = small("en");
    let ids = tk.encode(" \n hello  \u{3000}");
    assert_eq!(decode_plain(&tk, &ids), "hello");
}

#[test]
fn decoding_defaults() {
    let o = DecodingOptions::default();
    assert_eq!(o.task, "transcribe");
    assert_eq!(o.language, None);
    assert_eq!(o.sample_len, None);
    assert!(o.suppress_blank);
    assert_eq!(o.suppress_tokens.as_deref(), Some("-1"));
    assert!(!o.without_timestamps);
    assert_eq!(o.max_initial_timestamp, Some(1_000_000));
    assert_eq!(o.prompt, None);
    assert_eq!(o.audio_ctx, None);
}
