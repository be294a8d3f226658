//! The tokenizer: languages, special tokens, encoding, decoding and words.

use base64::Engine;
use mlx_whisper_rs::languages::{find_code, find_name};
use mlx_whisper_rs::tokenizer::{
    bpe_encode, encoding_name, get_tokenizer, language_code, language_name, resolve_language,
    split_tiktoken_pieces, to_language_code, Encoding, Tokenizer, TokenizerError, VocabularyError,
    LANGUAGE_COUNT,
};

const LANGUAGES: [(&str, &str); 100] = [
    ("en", "english"), ("zh", "chinese"), ("de", "german"), ("es", "spanish"),
    ("ru", "russian"), ("ko", "korean"), ("fr", "french"), ("ja", "japanese"),
    ("pt", "portuguese"), ("tr", "turkish"), ("pl", "polish"), ("ca", "catalan"),
    ("nl", "dutch"), ("ar", "arabic"), ("sv", "swedish"), ("it", "italian"),
    ("id", "indonesian"), ("hi", "hindi"), ("fi", "finnish"), ("vi", "vietnamese"),
    ("he", "hebrew"), ("uk", "ukrainian"), ("el", "greek"), ("ms", "malay"),
    ("cs", "czech"), ("ro", "romanian"), ("da", "danish"), ("hu", "hungarian"),
    ("ta", "tamil"), ("no", "norwegian"), ("th", "thai"), ("ur", "urdu"),
    ("hr", "croatian"), ("bg", "bulgarian"), ("lt", "lithuanian"), ("la", "latin"),
    ("mi", "maori"), ("ml", "malayalam"), ("cy", "welsh"), ("sk", "slovak"),
    ("te", "telugu"), ("fa", "persian"), ("lv", "latvian"), ("bn", "bengali"),
    ("sr", "serbian"), ("az", "azerbaijani"), ("sl", "slovenian"), ("kn", "kannada"),
    ("et", "estonian"), ("mk", "macedonian"), ("br", "breton"), ("eu", "basque"),
    ("is", "icelandic"), ("hy", "armenian"), ("ne", "nepali"), ("mn", "mongolian"),
    ("bs", "bosnian"), ("kk", "kazakh"), ("sq", "albanian"), ("sw", "swahili"),
    ("gl", "galician"), ("mr", "marathi"), ("pa", "punjabi"), ("si", "sinhala"),
    ("km", "khmer"), ("sn", "shona"), ("yo", "yoruba"), ("so", "somali"),
    ("af", "afrikaans"), ("oc", "occitan"), ("ka", "georgian"), ("be", "belarusian"),
    ("tg", "tajik"), ("sd", "sindhi"), ("gu", "gujarati"), ("am", "amharic"),
    ("yi", "yiddish"), ("lo", "lao"), ("uz", "uzbek"), ("fo", "faroese"),
    ("ht", "haitian creole"), ("ps", "pashto"), ("tk", "turkmen"), ("nn", "nynorsk"),
    ("mt", "maltese"), ("sa", "sanskrit"), ("lb", "luxembourgish"), ("my", "myanmar"),
    ("bo", "tibetan"), ("tl", "tagalog"), ("mg", "malagasy"), ("as", "assamese"),
    ("tt", "tatar"), ("haw", "hawaiian"), ("ln", "lingala"), ("ha", "hausa"),
    ("ba", "bashkir"), ("jw", "javanese"), ("su", "sundanese"), ("yue", "cantonese"),
];

/// The tokens that are merged in the vocabulary of these tests, from rank 256 on.
const MERGES: [&str; 11] =
    [" h", " he", " hel", " hell", " hello", " D", " DO", " DON", "\u{65e5}", " (", "--"];

/// A vocabulary of `total` tokens: the single bytes, the merges, and tokens that no text is
/// merged to.
fn vocabulary(total: usize) -> String {
    let b64 = base64::engine::general_purpose::STANDARD;
    let mut tokens: Vec<Vec<u8>> = (0..=255u8).map(|b| vec![b]).collect();
    // The two halves of a three-byte character, so that it can be merged.
    tokens.extend(MERGES.iter().map(|m| m.as_bytes().to_vec()));
    tokens.push(vec![0xe6, 0x97]);
    let mut i = 0;
    while tokens.len() < total {
        tokens.push(format!("\u{1}{i:06}").into_bytes());
        i += 1;
    }
    let mut text = String::new();
    for (rank, token) in tokens.iter().enumerate() {
        text.push_str(&format!("{} {}\n", b64.encode(token), rank));
    }
    text
}

fn made(multilingual: bool, n: usize, language: Option<&str>, task: Option<&str>) -> Tokenizer {
    let total = if multilingual { 50257 } else { 50256 };
    get_tokenizer(multilingual, n, language, task, &vocabulary(total))
        .unwrap_or_else(|e| panic!("get_tokenizer({language:?}) failed: {e:?}"))
}

fn english() -> Tokenizer {
    made(true, 99, Some("en"), Some("transcribe"))
}

/// A tokenizer with a small vocabulary, so that ids are easy to follow.
fn small(language: &str) -> Tokenizer {
    get_tokenizer(true, 99, Some(language), None, &vocabulary(300)).unwrap_or_else(|e| panic!("{e:?}"))
}

#[test]
fn language_table_matches_upstream() {
    assert_eq!(LANGUAGE_COUNT, LANGUAGES.len());
    for (i, (code, name)) in LANGUAGES.iter().enumerate() {
        assert_eq!(language_code(i), *code, "code of language {i}");
        assert_eq!(language_name(i), *name, "name of language {i}");
        assert_eq!(find_code(code, LANGUAGE_COUNT), Some(i));
        assert_eq!(find_name(name), Some(i));
        assert_eq!(to_language_code(code), Some(*code));
        assert_eq!(to_language_code(name), Some(*code));
    }
}

#[test]
fn aliases_stand_for_languages() {
    for (alias, code) in [
        ("burmese", "my"), ("valencian", "ca"), ("flemish", "nl"), ("haitian", "ht"),
        ("letzeburgesch", "lb"), ("pushto", "ps"), ("panjabi", "pa"), ("moldavian", "ro"),
        ("moldovan", "ro"), ("sinhalese", "si"), ("castilian", "es"), ("mandarin", "zh"),
    ] {
        assert_eq!(to_language_code(alias), Some(code));
    }
    assert_eq!(to_language_code("klingon"), None);
    assert_eq!(to_language_code(""), None);
    assert_eq!(to_language_code("English"), None);
}

#[test]
fn special_token_layout_matches_upstream() {
    let tk = english();
    assert_eq!(tk.eot(), 50257);
    assert_eq!(tk.sot(), 50258);
    assert_eq!(tk.translate_token(), 50358);
    assert_eq!(tk.transcribe_token(), 50359);
    assert_eq!(tk.start_of_lm(), 50360);
    assert_eq!(tk.start_of_prev(), 50361);
    assert_eq!(tk.no_speech(), 50362);
    assert_eq!(tk.no_timestamps(), 50363);
    assert_eq!(tk.timestamp_begin(), 50364);
    assert_eq!(tk.sot_sequence, vec![50258, 50259, 50359]);
    assert_eq!(
        tk.sot_sequence_including_notimestamps(),
        vec![50258, 50259, 50359, 50363]
    );

    let tk = made(true, 100, Some("zh"), Some("translate"));
    assert_eq!(tk.eot(), 50257);
    assert_eq!(tk.sot(), 50258);
    assert_eq!(tk.transcribe_token(), 50360);
    assert_eq!(tk.no_speech(), 50363);
    assert_eq!(tk.no_timestamps(), 50364);
    assert_eq!(tk.timestamp_begin(), 50365);
    assert_eq!(tk.sot_sequence, vec![50258, 50260, 50359]);

    let tk = made(false, 99, None, None);
    assert_eq!(tk.eot(), 50256);
    assert_eq!(tk.sot(), 50257);
    assert_eq!(tk.transcribe_token(), 50358);
    assert_eq!(tk.no_speech(), 50361);
    assert_eq!(tk.no_timestamps(), 50362);
    assert_eq!(tk.timestamp_begin(), 50363);
    assert_eq!(tk.sot_sequence, vec![50257]);
    assert_eq!(tk.language, None);
    assert_eq!(tk.task, None);
    assert_eq!(tk.encoding.name, "gpt2");
}

#[test]
fn special_tokens_are_found_by_name() {
    let tk = english();
    assert_eq!(tk.encoding.encode_single_token("<|endoftext|>"), Some(50257));
    assert_eq!(tk.encoding.encode_single_token("<|startoftranscript|>"), Some(50258));
    assert_eq!(tk.encoding.encode_single_token("<|0.00|>"), Some(50364));
    assert_eq!(tk.encoding.encode_single_token("<|0.02|>"), Some(50365));
    assert_eq!(tk.encoding.encode_single_token("<|0.98|>"), Some(50413));
    assert_eq!(tk.encoding.encode_single_token("<|1.00|>"), Some(50414));
    assert_eq!(tk.encoding.encode_single_token("<|30.00|>"), Some(51864));
    assert_eq!(tk.encoding.encode_single_token("<|30.02|>"), None);
    assert_eq!(tk.encoding.encode_single_token(" hello"), Some(260));
    assert_eq!(tk.encoding.special_tokens.get(b"<|nospeech|>"), Some(50362));
    assert_eq!(tk.encoding.special_tokens.get(b"a"), None);
    for i in 0..1501u32 {
        let name = format!("<|{:.2}|>", i as f32 * 0.02);
        assert_eq!(tk.encoding.encode_single_token(&name), Some(50364 + i), "{name}");
        assert_eq!(tk.decode_with_timestamps(&[50364 + i]), name);
    }
}

#[test]
fn non_speech_tokens_match_upstream() {
    let tk = small("en");
    // A space, the first byte of the musical signs, the symbols of one byte, and the two
    // symbols that are merged.
    let mut want: Vec<u32> = vec![0x20, 0xe2, 265, 266];
    want.extend("\"#()*+/:;<=>@[\\]^_`{|}~".bytes().map(|b| b as u32));
    want.sort_unstable();
    assert_eq!(tk.non_speech_tokens(), want, "non_speech_tokens set");
}

#[test]
fn all_language_tokens_are_contiguous_from_sot() {
    let tk = english();
    let toks = tk.all_language_tokens();
    assert_eq!(toks.len(), 99, "all_language_tokens length must equal num_languages");
    assert_eq!(
        toks.iter().take(8).cloned().collect::<Vec<_>>(),
        vec![50259, 50260, 50261, 50262, 50263, 50264, 50265, 50266],
        "all_language_tokens prefix"
    );
    let codes = tk.all_language_codes();
    assert_eq!(
        codes.iter().take(8).cloned().collect::<Vec<_>>(),
        vec!["en", "zh", "de", "es", "ru", "ko", "fr", "ja"]
    );
    for (i, code) in codes.iter().enumerate() {
        assert_eq!(code, LANGUAGES[i].0);
    }
}

#[test]
fn encode_decode_round_trips_match_upstream() {
    let tk = english();
    let cases: Vec<(&str, Vec<u32>)> = vec![
        ("", vec![]),
        (" hello", vec![260]),
        ("hello", vec![104, 101, 108, 108, 111]),
        (" hello hello", vec![260, 260]),
        (" DON'T", vec![263, 39, 84]),
        ("don't", vec![100, 111, 110, 39, 116]),
        ("\u{65e5}", vec![264]),
        ("a  b", vec![97, 32, 32, 98]),
        ("\u{e9}\u{1f600}", vec![0xc3, 0xa9, 0xf0, 0x9f, 0x98, 0x80]),
    ];
    for (text, want_tokens) in cases {
        let got = tk.encode(text);
        assert_eq!(got, want_tokens, "encode({text:?})");
        assert_eq!(tk.decode(&got), text, "decode(encode({text:?}))");
    }
}

#[test]
fn text_that_spells_a_special_token_encodes_to_none() {
    let tk = english();
    for text in ["<|endoftext|>", "<|0.00|>", "a<|en|>b", " <|transcribe|> hello"] {
        let ids = tk.encode(text);
        assert!(ids.iter().all(|&id| id < tk.eot()), "{text}");
        assert_eq!(tk.decode(&ids), text);
    }
}

#[test]
fn decode_with_timestamps_matches_upstream() {
    let tk = english();
    let ts = tk.timestamp_begin();
    let tokens = [ts, 260, ts + 50, ts + 50, 263, ts + 1500, tk.eot()];
    assert_eq!(
        tk.decode_with_timestamps(&tokens),
        "<|0.00|> hello<|1.00|><|1.00|> DON<|30.00|><|endoftext|>",
        "decode_with_timestamps"
    );
    assert_eq!(tk.decode(&tokens), " hello DON", "decode must strip timestamp tokens");
}

#[test]
fn ids_without_a_token_are_left_out() {
    let tk = small("en");
    assert_eq!(tk.encoding.decode(&[260, u32::MAX, 104]), " helloh");
    assert_eq!(tk.decode(&[]), "");
}

#[test]
fn malformed_bytes_decode_to_replacement_characters() {
    let tk = small("en");
    assert_eq!(tk.encoding.decode(&[0x61, 0xff, 0x62]), "a\u{fffd}b");
    assert_eq!(tk.encoding.decode(&[0xe6, 0x97]), "\u{fffd}");
    assert_eq!(tk.decode(&[0x61, 0xff, tk.eot(), 0x62]), "a\u{fffd}b");
    assert_eq!(tk.decode_with_timestamps(&[0xe6, 0x97]), "\u{fffd}");
}

#[test]
fn ranks_may_stand_in_any_order() {
    // The bytes from the last to the first, one token twice and a special name among them.
    let b64 = base64::engine::general_purpose::STANDARD;
    let mut tokens: Vec<Vec<u8>> = (0..=255u8).map(|b| vec![b]).collect();
    for m in ["he", "he", "<|endoftext|>"] {
        tokens.push(m.as_bytes().to_vec());
    }
    let mut text = String::new();
    for (rank, token) in tokens.iter().enumerate().rev() {
        text.push_str(&format!("{} {}\n", b64.encode(token), rank));
    }
    let tk = get_tokenizer(true, 99, Some("en"), None, &text).unwrap_or_else(|e| panic!("{e:?}"));
    assert_eq!(tk.eot(), 259);
    for line in ["the hen", "<|endoftext|>", "\u{65e5}\u{672c} 1", ""] {
        let ids = tk.encode(line);
        assert!(ids.iter().all(|&id| id < tk.eot()), "{line}");
        assert_eq!(tk.decode(&ids), line);
        assert_eq!(tk.decode_with_timestamps(&ids), line);
    }
}

#[test]
fn split_to_word_tokens_matches_upstream() {
    let en = small("en");
    let tokens = en.encode(" hello hello, DON");
    let (words, word_tokens) = en.split_to_word_tokens(&tokens);
    assert_eq!(words, vec![" hello", " hello", ",", " DON"]);
    assert_eq!(word_tokens, vec![vec![260], vec![260], vec![44], vec![263]]);

    let tokens = en.encode("hi hello");
    let (words, word_tokens) = en.split_to_word_tokens(&tokens);
    assert_eq!(words, vec!["hi", " hello"]);
    assert_eq!(word_tokens, vec![vec![104, 105], vec![260]]);

    let zh = small("zh");
    let tokens = zh.encode("\u{65e5}\u{672c}a");
    assert_eq!(tokens, vec![264, 0xe6, 0x9c, 0xac, 97]);
    let (words, word_tokens) = zh.split_to_word_tokens(&tokens);
    assert_eq!(words, vec!["\u{65e5}", "\u{672c}", "a"]);
    assert_eq!(word_tokens, vec![vec![264], vec![0xe6, 0x9c, 0xac], vec![97]]);
}

#[test]
fn words_make_up_the_text() {
    for language in ["en", "ja"] {
        let tk = small(language);
        for text in ["", " hello", "don't, DON'T!", "\u{65e5}\u{672c} a\u{1f600}  b "] {
            let tokens = tk.encode(text);
            let (words, word_tokens) = tk.split_to_word_tokens(&tokens);
            assert_eq!(words.concat(), text);
            assert_eq!(word_tokens.concat(), tokens);
        }
    }
}

#[test]
fn special_tokens_are_words_of_their_own() {
    let tk = small("en");
    let ts = tk.timestamp_begin();
    let (words, word_tokens) = tk.split_tokens_on_spaces(&[ts, 104, 105, ts + 1, 105]);
    assert_eq!(words, vec!["<|0.00|>hi", "<|0.02|>i"]);
    assert_eq!(word_tokens, vec![vec![ts, 104, 105], vec![ts + 1, 105]]);
}

#[test]
fn tokens_of_half_a_character_at_the_end_are_left_out_of_words() {
    let tk = small("zh");
    let (words, word_tokens) = tk.split_tokens_on_unicode(&[97, 0xe6, 0x9c, 0xac, 0xe6]);
    // The last byte decodes to a replacement character in the whole text too.
    assert_eq!(words, vec!["a", "\u{672c}", "\u{fffd}"]);
    assert_eq!(word_tokens, vec![vec![97], vec![0xe6, 0x9c, 0xac], vec![0xe6]]);
}

#[test]
fn language_lookup_accepts_codes_and_names() {
    for spelling in ["en", "EN", "english", "English"] {
        let tk = made(true, 99, Some(spelling), Some("transcribe"));
        assert_eq!(
            tk.language.as_deref(),
            Some("en"),
            "{spelling} should normalise to the code \"en\""
        );
        assert_eq!(resolve_language(Some(spelling)), Ok(Some("en".to_string())));
    }
    assert!(matches!(
        get_tokenizer(true, 99, Some("klingon"), Some("transcribe"), &vocabulary(300)),
        Err(TokenizerError::UnsupportedLanguage)
    ));
    assert_eq!(resolve_language(None), Ok(None));
    assert_eq!(resolve_language(Some("\u{c9}")), Err(TokenizerError::UnsupportedLanguage));
    assert_eq!(resolve_language(Some("HAITIAN CREOLE")), Ok(Some("ht".to_string())));
}

#[test]
fn language_outside_num_languages_window_is_rejected() {
    match get_tokenizer(true, 99, Some("yue"), Some("transcribe"), &vocabulary(50257)) {
        Err(e) => assert_eq!(e, TokenizerError::LanguageOutsideModel),
        Ok(tk) => {
            assert_ne!(tk.sot_sequence[1], 50358, "a task token stands in for a language token");
            panic!("the language was accepted: {:?}", tk.sot_sequence);
        }
    }
    assert_eq!(made(true, 100, Some("yue"), None).sot_sequence, vec![50258, 50358, 50360]);
}

#[test]
fn every_language_code_maps_to_its_positional_token() {
    let tk = made(true, 100, Some("en"), Some("transcribe"));
    for (i, (code, _)) in LANGUAGES.iter().enumerate() {
        let want = tk.sot() + 1 + i as u32;
        let got = tk
            .to_language_token(code)
            .unwrap_or_else(|e| panic!("to_language_token({code}) failed: {e:?}"));
        assert_eq!(got, want, "language token for {code:?} (table index {i})");
    }
    assert_eq!(tk.language_token(), Ok(50259));
    assert_eq!(tk.to_language_token("klingon"), Err(TokenizerError::LanguageNotFound));
    assert_eq!(tk.to_language_token("translate"), Ok(tk.translate_token()));
    assert_eq!(made(false, 99, None, None).language_token(), Err(TokenizerError::NoLanguage));
}

#[test]
fn languages_of_a_smaller_encoding_are_not_found() {
    let encoding = Encoding::from_tiktoken_file(&vocabulary(300), "x", 2)
        .unwrap_or_else(|e| panic!("{e:?}"));
    let tk = Tokenizer::new(encoding, 5, None, None).unwrap_or_else(|e| panic!("{e:?}"));
    assert_eq!(tk.all_language_tokens(), vec![302, 303]);
    assert_eq!(tk.all_language_codes(), vec!["en", "zh"]);
    assert_eq!(tk.to_language_token("de"), Err(TokenizerError::LanguageNotFound));
}

#[test]
fn defaults_of_a_multilingual_model_are_english_and_transcribing() {
    let tk = made(true, 99, None, None);
    assert_eq!(tk.language.as_deref(), Some("en"));
    assert_eq!(tk.task.as_deref(), Some("transcribe"));
    assert_eq!(tk.encoding.name, "multilingual");
    assert_eq!(encoding_name(true), "multilingual");
    assert_eq!(encoding_name(false), "gpt2");
    // The language is looked up even where it is not used.
    assert!(matches!(
        get_tokenizer(false, 99, Some("klingon"), None, &vocabulary(300)),
        Err(TokenizerError::UnsupportedLanguage)
    ));
    assert_eq!(made(false, 99, Some("de"), Some("translate")).sot_sequence, vec![50257]);
}

#[test]
fn pieces_follow_the_pattern() {
    let split = |s: &str| split_tiktoken_pieces(s);
    assert_eq!(split(" DON'T"), vec![" DON", "'", "T"]);
    assert_eq!(split("don't"), vec!["don", "'t"]);
    assert_eq!(split("we're they've I'll he'd I'm it's"), vec![
        "we", "'re", " they", "'ve", " I", "'ll", " he", "'d", " I", "'m", " it", "'s",
    ]);
    assert_eq!(split(" a  b"), vec![" a", " ", " b"]);
    assert_eq!(split("a   b"), vec!["a", "  ", " b"]);
    assert_eq!(split("a \n b"), vec!["a", " \n", " b"]);
    assert_eq!(split("end  "), vec!["end", "  "]);
    assert_eq!(split(" 12ab!?  "), vec![" 12", "ab", "!?", "  "]);
    assert_eq!(split("\tx"), vec!["\t", "x"]);
    assert_eq!(split(""), Vec::<String>::new());
    assert_eq!(split("'"), vec!["'"]);
    assert_eq!(split("\u{65e5}\u{672c} \u{bd}"), vec!["\u{65e5}\u{672c}", " \u{bd}"]);
}

#[test]
fn white_space_is_that_of_unicode() {
    for u in 0..=0x10ffffu32 {
        if let Some(c) = char::from_u32(u) {
            assert_eq!(mlx_whisper_rs::text::is_white_space(c), c.is_whitespace(), "{u:x}");
        }
    }
}

#[test]
fn merges_go_by_rank_and_then_by_place() {
    let mut ranks = mlx_whisper_rs::table::ByteTable::new();
    for b in b"abc" {
        ranks.insert(&[*b], *b as u32);
    }
    ranks.insert(b"bc", 1);
    ranks.insert(b"ab", 2);
    ranks.insert(b"abab", 3);
    assert_eq!(bpe_encode(b"abc", &ranks), vec![97, 1]);
    assert_eq!(bpe_encode(b"ababab", &ranks), vec![3, 2]);
    assert_eq!(bpe_encode(b"", &ranks), Vec::<u32>::new());
    assert_eq!(bpe_encode(b"axb", &ranks), vec![97, 98]);
    ranks.insert(b"ab", 0);
    assert_eq!(bpe_encode(b"abc", &ranks), vec![0, 99]);
    assert_eq!(ranks.get(b"abab"), Some(3));
    assert_eq!(ranks.get(b"ba"), None);
}

#[test]
fn vocabularies_are_read_line_by_line() {
    let read = |s: &str| mlx_whisper_rs::vocabulary::read_vocabulary(s);
    assert_eq!(
        read("YQ== 0\r\n\nYmM=\t+7 more\n= 9"),
        Ok(vec![(b"a".to_vec(), 0), (b"bc".to_vec(), 7), (vec![], 9)])
    );
    assert_eq!(read(""), Ok(vec![]));
    assert_eq!(read("YQ== 0\n  \n"), Err(VocabularyError::MissingToken));
    assert_eq!(read("YQ==\n"), Err(VocabularyError::MissingRank));
    assert_eq!(read("YQ== x"), Err(VocabularyError::InvalidRank));
    assert_eq!(read("YQ== 4294967296"), Err(VocabularyError::InvalidRank));
    assert_eq!(read("YQ== -1"), Err(VocabularyError::InvalidRank));
    assert_eq!(read("YQ== 4294967295"), Ok(vec![(b"a".to_vec(), u32::MAX)]));
    assert_eq!(read("Y!== 0"), Err(VocabularyError::InvalidBase64));
    assert_eq!(read("YQ 0"), Err(VocabularyError::InvalidBase64));
    // The rank is looked at before the token is decoded.
    assert_eq!(read("! x"), Err(VocabularyError::InvalidRank));
}

/// What a text in Base64 stands for, digit by digit.
fn base64_by_hand(text: &str) -> Option<Vec<u8>> {
    let digits = "ABCDEFGHIJKLMNOPQRSTUVWXYZabcdefghijklmnopqrstuvwxyz0123456789+/";
    let bare = text.strip_suffix("==").or_else(|| text.strip_suffix('=')).unwrap_or(text);
    if text.len() % 4 != 0 || text.len() - bare.len() != (4 - bare.len() % 4) % 4 {
        return None;
    }
    let mut bits: Vec<bool> = Vec::new();
    for c in bare.chars() {
        let v = digits.find(c)?;
        bits.extend((0..6).rev().map(|k| v >> k & 1 == 1));
    }
    let used = bits.len() / 8 * 8;
    if bits[used..].iter().any(|b| *b) {
        return None;
    }
    Some(bits[..used].chunks(8).map(|c| c.iter().fold(0u8, |a, b| a << 1 | *b as u8)).collect())
}

#[test]
fn base64_is_read_strictly() {
    let read = |t: &str| {
        mlx_whisper_rs::vocabulary::read_vocabulary(&format!("{t} 1"))
            .map(|entries| entries.into_iter().map(|(token, _)| token).collect::<Vec<_>>())
    };
    for (text, bytes) in [("QQ==", "A"), ("QUI=", "AB"), ("QUJD", "ABC"), ("QUJDRA==", "ABCD")] {
        assert_eq!(read(text), Ok(vec![bytes.as_bytes().to_vec()]));
    }
    assert_eq!(read("+/+/"), Ok(vec![vec![0xfb, 0xff, 0xbf]]));
    for text in [
        "Q", "QQ", "QQ=", "QR==", "QUJ=", "Q===", "====", "=QQ=", "QQ=Q", "QQ==QQ==", "QUJDR", "-_-_",
        "QUJ\u{e9}", "QQ==\u{e9}", "==",
    ] {
        assert_eq!(read(text), Err(VocabularyError::InvalidBase64), "{text}");
    }
    // All texts of up to five characters of a small alphabet.
    let letters = ["A", "Q", "g", "/", "=", "-"];
    let mut texts: Vec<String> = vec![String::new()];
    for _ in 0..5 {
        texts = texts.iter().flat_map(|t| letters.iter().map(move |l| format!("{t}{l}"))).collect();
        for t in texts.iter().filter(|t| t.as_str() != "=") {
            let want = base64_by_hand(t).map(|b| vec![b]).ok_or(VocabularyError::InvalidBase64);
            assert_eq!(read(t), want, "{t}");
        }
    }
}

#[test]
fn later_lines_take_the_place_of_earlier_ones() {
    let e = Encoding::from_tiktoken_file("YQ== 0\nYg== 0\nYg== 1\n", "x", 0)
        .unwrap_or_else(|e| panic!("{e:?}"));
    assert_eq!(e.eot_token, 2);
    assert_eq!(e.decode(&[0, 1]), "bb");
    assert_eq!(e.encode("ab"), vec![0, 1]);
    assert_eq!(e.encode_single_token("<|translate|>"), Some(4));
}

#[test]
fn errors_of_a_vocabulary_reach_the_caller() {
    assert!(matches!(
        get_tokenizer(true, 99, None, None, "YQ==\n"),
        Err(TokenizerError::Vocabulary(VocabularyError::MissingRank))
    ));
}
