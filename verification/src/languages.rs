//! The languages that a model may know, in the order of their tokens.

use vstd::prelude::*;

use crate::text::same_text;

verus! {

/// The number of languages in the table.
pub const LANGUAGE_COUNT: usize = 100;

/// The code of language `i` of the table.
pub open spec fn code_at(i: int) -> Seq<char> {
    if i == 0 {
        "en"@
    } else if i == 1 {
        "zh"@
    } else if i == 2 {
        "de"@
    } else if i == 3 {
        "es"@
    } else if i == 4 {
        "ru"@
    } else if i == 5 {
        "ko"@
    } else if i == 6 {
        "fr"@
    } else if i == 7 {
        "ja"@
    } else if i == 8 {
        "pt"@
    } else if i == 9 {
        "tr"@
    } else if i == 10 {
        "pl"@
    } else if i == 11 {
        "ca"@
    } else if i == 12 {
        "nl"@
    } else if i == 13 {
        "ar"@
    } else if i == 14 {
        "sv"@
    } else if i == 15 {
        "it"@
    } else if i == 16 {
        "id"@
    } else if i == 17 {
        "hi"@
    } else if i == 18 {
        "fi"@
    } else if i == 19 {
        "vi"@
    } else if i == 20 {
        "he"@
    } else if i == 21 {
        "uk"@
    } else if i == 22 {
        "el"@
    } else if i == 23 {
        "ms"@
    } else if i == 24 {
        "cs"@
    } else if i == 25 {
        "ro"@
    } else if i == 26 {
        "da"@
    } else if i == 27 {
        "hu"@
    } else if i == 28 {
        "ta"@
    } else if i == 29 {
        "no"@
    } else if i == 30 {
        "th"@
    } else if i == 31 {
        "ur"@
    } else if i == 32 {
        "hr"@
    } else if i == 33 {
        "bg"@
    } else if i == 34 {
        "lt"@
    } else if i == 35 {
        "la"@
    } else if i == 36 {
        "mi"@
    } else if i == 37 {
        "ml"@
    } else if i == 38 {
        "cy"@
    } else if i == 39 {
        "sk"@
    } else if i == 40 {
        "te"@
    } else if i == 41 {
        "fa"@
    } else if i == 42 {
        "lv"@
    } else if i == 43 {
        "bn"@
    } else if i == 44 {
        "sr"@
    } else if i == 45 {
        "az"@
    } else if i == 46 {
        "sl"@
    } else if i == 47 {
        "kn"@
    } else if i == 48 {
        "et"@
    } else if i == 49 {
        "mk"@
    } else if i == 50 {
        "br"@
    } else if i == 51 {
        "eu"@
    } else if i == 52 {
        "is"@
    } else if i == 53 {
        "hy"@
    } else if i == 54 {
        "ne"@
    } else if i == 55 {
        "mn"@
    } else if i == 56 {
        "bs"@
    } else if i == 57 {
        "kk"@
    } else if i == 58 {
        "sq"@
    } else if i == 59 {
        "sw"@
    } else if i == 60 {
        "gl"@
    } else if i == 61 {
        "mr"@
    } else if i == 62 {
        "pa"@
    } else if i == 63 {
        "si"@
    } else if i == 64 {
        "km"@
    } else if i == 65 {
        "sn"@
    } else if i == 66 {
        "yo"@
    } else if i == 67 {
        "so"@
    } else if i == 68 {
        "af"@
    } else if i == 69 {
        "oc"@
    } else if i == 70 {
        "ka"@
    } else if i == 71 {
        "be"@
    } else if i == 72 {
        "tg"@
    } else if i == 73 {
        "sd"@
    } else if i == 74 {
        "gu"@
    } else if i == 75 {
        "am"@
    } else if i == 76 {
        "yi"@
    } else if i == 77 {
        "lo"@
    } else if i == 78 {
        "uz"@
    } else if i == 79 {
        "fo"@
    } else if i == 80 {
        "ht"@
    } else if i == 81 {
        "ps"@
    } else if i == 82 {
        "tk"@
    } else if i == 83 {
        "nn"@
    } else if i == 84 {
        "mt"@
    } else if i == 85 {
        "sa"@
    } else if i == 86 {
        "lb"@
    } else if i == 87 {
        "my"@
    } else if i == 88 {
        "bo"@
    } else if i == 89 {
        "tl"@
    } else if i == 90 {
        "mg"@
    } else if i == 91 {
        "as"@
    } else if i == 92 {
        "tt"@
    } else if i == 93 {
        "haw"@
    } else if i == 94 {
        "ln"@
    } else if i == 95 {
        "ha"@
    } else if i == 96 {
        "ba"@
    } else if i == 97 {
        "jw"@
    } else if i == 98 {
        "su"@
    } else {
        "yue"@
    }
}

/// The English name of language `i` of the table.
pub open spec fn name_at(i: int) -> Seq<char> {
    if i == 0 {
        "english"@
    } else if i == 1 {
        "chinese"@
    } else if i == 2 {
        "german"@
    } else if i == 3 {
        "spanish"@
    } else if i == 4 {
        "russian"@
    } else if i == 5 {
        "korean"@
    } else if i == 6 {
        "french"@
    } else if i == 7 {
        "japanese"@
    } else if i == 8 {
        "portuguese"@
    } else if i == 9 {
        "turkish"@
    } else if i == 10 {
        "polish"@
    } else if i == 11 {
        "catalan"@
    } else if i == 12 {
        "dutch"@
    } else if i == 13 {
        "arabic"@
    } else if i == 14 {
        "swedish"@
    } else if i == 15 {
        "italian"@
    } else if i == 16 {
        "indonesian"@
    } else if i == 17 {
        "hindi"@
    } else if i == 18 {
        "finnish"@
    } else if i == 19 {
        "vietnamese"@
    } else if i == 20 {
        "hebrew"@
    } else if i == 21 {
        "ukrainian"@
    } else if i == 22 {
        "greek"@
    } else if i == 23 {
        "malay"@
    } else if i == 24 {
        "czech"@
    } else if i == 25 {
        "romanian"@
    } else if i == 26 {
        "danish"@
    } else if i == 27 {
        "hungarian"@
    } else if i == 28 {
        "tamil"@
    } else if i == 29 {
        "norwegian"@
    } else if i == 30 {
        "thai"@
    } else if i == 31 {
        "urdu"@
    } else if i == 32 {
        "croatian"@
    } else if i == 33 {
        "bulgarian"@
    } else if i == 34 {
        "lithuanian"@
    } else if i == 35 {
        "latin"@
    } else if i == 36 {
        "maori"@
    } else if i == 37 {
        "malayalam"@
    } else if i == 38 {
        "welsh"@
    } else if i == 39 {
        "slovak"@
    } else if i == 40 {
        "telugu"@
    } else if i == 41 {
        "persian"@
    } else if i == 42 {
        "latvian"@
    } else if i == 43 {
        "bengali"@
    } else if i == 44 {
        "serbian"@
    } else if i == 45 {
        "azerbaijani"@
    } else if i == 46 {
        "slovenian"@
    } else if i == 47 {
        "kannada"@
    } else if i == 48 {
        "estonian"@
    } else if i == 49 {
        "macedonian"@
    } else if i == 50 {
        "breton"@
    } else if i == 51 {
        "basque"@
    } else if i == 52 {
        "icelandic"@
    } else if i == 53 {
        "armenian"@
    } else if i == 54 {
        "nepali"@
    } else if i == 55 {
        "mongolian"@
    } else if i == 56 {
        "bosnian"@
    } else if i == 57 {
        "kazakh"@
    } else if i == 58 {
        "albanian"@
    } else if i == 59 {
        "swahili"@
    } else if i == 60 {
        "galician"@
    } else if i == 61 {
        "marathi"@
    } else if i == 62 {
        "punjabi"@
    } else if i == 63 {
        "sinhala"@
    } else if i == 64 {
        "khmer"@
    } else if i == 65 {
        "shona"@
    } else if i == 66 {
        "yoruba"@
    } else if i == 67 {
        "somali"@
    } else if i == 68 {
        "afrikaans"@
    } else if i == 69 {
        "occitan"@
    } else if i == 70 {
        "georgian"@
    } else if i == 71 {
        "belarusian"@
    } else if i == 72 {
        "tajik"@
    } else if i == 73 {
        "sindhi"@
    } else if i == 74 {
        "gujarati"@
    } else if i == 75 {
        "amharic"@
    } else if i == 76 {
        "yiddish"@
    } else if i == 77 {
        "lao"@
    } else if i == 78 {
        "uzbek"@
    } else if i == 79 {
        "faroese"@
    } else if i == 80 {
        "haitian creole"@
    } else if i == 81 {
        "pashto"@
    } else if i == 82 {
        "turkmen"@
    } else if i == 83 {
        "nynorsk"@
    } else if i == 84 {
        "maltese"@
    } else if i == 85 {
        "sanskrit"@
    } else if i == 86 {
        "luxembourgish"@
    } else if i == 87 {
        "myanmar"@
    } else if i == 88 {
        "tibetan"@
    } else if i == 89 {
        "tagalog"@
    } else if i == 90 {
        "malagasy"@
    } else if i == 91 {
        "assamese"@
    } else if i == 92 {
        "tatar"@
    } else if i == 93 {
        "hawaiian"@
    } else if i == 94 {
        "lingala"@
    } else if i == 95 {
        "hausa"@
    } else if i == 96 {
        "bashkir"@
    } else if i == 97 {
        "javanese"@
    } else if i == 98 {
        "sundanese"@
    } else {
        "cantonese"@
    }
}

/// The language codes, in order.
pub open spec fn language_codes() -> Seq<Seq<char>> {
    Seq::new(LANGUAGE_COUNT as nat, |i: int| code_at(i))
}

/// The language names, in order.
pub open spec fn language_names() -> Seq<Seq<char>> {
    Seq::new(LANGUAGE_COUNT as nat, |i: int| name_at(i))
}

/// The codes of the first `n` languages, or of all where there are fewer.
pub open spec fn first_codes(n: nat) -> Seq<Seq<char>> {
    language_codes().take(
        if n < LANGUAGE_COUNT {
            n as int
        } else {
            LANGUAGE_COUNT as int
        },
    )
}

/// Where `s` first stands in `table`.
pub open spec fn index_in(table: Seq<Seq<char>>, s: Seq<char>) -> Option<nat>
    decreases table.len(),
{
    if table.len() == 0 {
        None
    } else if table[0] == s {
        Some(0)
    } else {
        match index_in(table.drop_first(), s) {
            Some(i) => Some(i + 1),
            None => None,
        }
    }
}

/// What `index_in` means: `s` stands there, and nowhere before.
pub proof fn lemma_index_in(table: Seq<Seq<char>>, s: Seq<char>)
    ensures
        match index_in(table, s) {
            Some(i) => i < table.len() && table[i as int] == s && forall|j: int|
                0 <= j < i ==> #[trigger] table[j] != s,
            None => forall|j: int| 0 <= j < table.len() ==> #[trigger] table[j] != s,
        },
    decreases table.len(),
{
    if table.len() > 0 && table[0] != s {
        let rest = table.drop_first();
        lemma_index_in(rest, s);
        assert forall|j: int| 0 < j < table.len() implies #[trigger] table[j] == rest[j - 1] by {
        }
    }
}

/// What another name for a language stands for.
pub open spec fn alias_code(name: Seq<char>) -> Option<Seq<char>> {
    if name == "burmese"@ {
        Some("my"@)
    } else if name == "valencian"@ {
        Some("ca"@)
    } else if name == "flemish"@ {
        Some("nl"@)
    } else if name == "haitian"@ {
        Some("ht"@)
    } else if name == "letzeburgesch"@ {
        Some("lb"@)
    } else if name == "pushto"@ {
        Some("ps"@)
    } else if name == "panjabi"@ {
        Some("pa"@)
    } else if name == "moldavian"@ {
        Some("ro"@)
    } else if name == "moldovan"@ {
        Some("ro"@)
    } else if name == "sinhalese"@ {
        Some("si"@)
    } else if name == "castilian"@ {
        Some("es"@)
    } else if name == "mandarin"@ {
        Some("zh"@)
    } else {
        None
    }
}

/// The code of the language that `name` denotes: a code, a name of the table, or an alias.
pub open spec fn language_code_of(name: Seq<char>) -> Option<Seq<char>> {
    if index_in(language_codes(), name) is Some {
        Some(name)
    } else {
        match index_in(language_names(), name) {
            Some(i) => Some(code_at(i as int)),
            None => alias_code(name),
        }
    }
}

/// A number for a code of two or three characters.
spec fn code_key(code: Seq<char>) -> int {
    code[0] as int * 65536 + code[1] as int * 256 + if code.len() == 3 {
        code[2] as int
    } else {
        0
    }
}

/// The position in the table of the code with that number.
spec fn key_index(key: int) -> int {
    if key == 6647296 {
        0
    } else if key == 8022016 {
        1
    } else if key == 6579456 {
        2
    } else if key == 6648576 {
        3
    } else if key == 7501056 {
        4
    } else if key == 7040768 {
        5
    } else if key == 6713856 {
        6
    } else if key == 6971648 {
        7
    } else if key == 7369728 {
        8
    } else if key == 7631360 {
        9
    } else if key == 7367680 {
        10
    } else if key == 6512896 {
        11
    } else if key == 7236608 {
        12
    } else if key == 6386176 {
        13
    } else if key == 7566848 {
        14
    } else if key == 6910976 {
        15
    } else if key == 6906880 {
        16
    } else if key == 6842624 {
        17
    } else if key == 6711552 {
        18
    } else if key == 7760128 {
        19
    } else if key == 6841600 {
        20
    } else if key == 7695104 {
        21
    } else if key == 6646784 {
        22
    } else if key == 7172864 {
        23
    } else if key == 6517504 {
        24
    } else if key == 7499520 {
        25
    } else if key == 6578432 {
        26
    } else if key == 6845696 {
        27
    } else if key == 7627008 {
        28
    } else if key == 7237376 {
        29
    } else if key == 7628800 {
        30
    } else if key == 7696896 {
        31
    } else if key == 6844928 {
        32
    } else if key == 6448896 {
        33
    } else if key == 7107584 {
        34
    } else if key == 7102720 {
        35
    } else if key == 7170304 {
        36
    } else if key == 7171072 {
        37
    } else if key == 6519040 {
        38
    } else if key == 7564032 {
        39
    } else if key == 7628032 {
        40
    } else if key == 6709504 {
        41
    } else if key == 7108096 {
        42
    } else if key == 6450688 {
        43
    } else if key == 7565824 {
        44
    } else if key == 6388224 {
        45
    } else if key == 7564288 {
        46
    } else if key == 7040512 {
        47
    } else if key == 6648832 {
        48
    } else if key == 7170816 {
        49
    } else if key == 6451712 {
        50
    } else if key == 6649088 {
        51
    } else if key == 6910720 {
        52
    } else if key == 6846720 {
        53
    } else if key == 7234816 {
        54
    } else if key == 7171584 {
        55
    } else if key == 6451968 {
        56
    } else if key == 7039744 {
        57
    } else if key == 7565568 {
        58
    } else if key == 7567104 {
        59
    } else if key == 6777856 {
        60
    } else if key == 7172608 {
        61
    } else if key == 7364864 {
        62
    } else if key == 7563520 {
        63
    } else if key == 7040256 {
        64
    } else if key == 7564800 {
        65
    } else if key == 7958272 {
        66
    } else if key == 7565056 {
        67
    } else if key == 6383104 {
        68
    } else if key == 7299840 {
        69
    } else if key == 7037184 {
        70
    } else if key == 6448384 {
        71
    } else if key == 7628544 {
        72
    } else if key == 7562240 {
        73
    } else if key == 6780160 {
        74
    } else if key == 6384896 {
        75
    } else if key == 7956736 {
        76
    } else if key == 7106304 {
        77
    } else if key == 7698944 {
        78
    } else if key == 6713088 {
        79
    } else if key == 6845440 {
        80
    } else if key == 7369472 {
        81
    } else if key == 7629568 {
        82
    } else if key == 7237120 {
        83
    } else if key == 7173120 {
        84
    } else if key == 7561472 {
        85
    } else if key == 7102976 {
        86
    } else if key == 7174400 {
        87
    } else if key == 6450944 {
        88
    } else if key == 7629824 {
        89
    } else if key == 7169792 {
        90
    } else if key == 6386432 {
        91
    } else if key == 7631872 {
        92
    } else if key == 6840695 {
        93
    } else if key == 7106048 {
        94
    } else if key == 6840576 {
        95
    } else if key == 6447360 {
        96
    } else if key == 6977280 {
        97
    } else if key == 7566592 {
        98
    } else if key == 7959909 {
        99
    } else {
        100
    }
}

/// A code is two or three lower-case letters, and tells its position in the table.
#[verifier::rlimit(60)]
proof fn lemma_code(i: int)
    requires
        0 <= i < LANGUAGE_COUNT,
    ensures
        2 <= code_at(i).len() <= 3,
        forall|k: int| 0 <= k < code_at(i).len() ==> 'a' as u32 <= (#[trigger] code_at(i)[k]) as u32
            <= 'z' as u32,
        key_index(code_key(code_at(i))) == i,
{
    if i == 0 {
        reveal_strlit("en");
    } else if i == 1 {
        reveal_strlit("zh");
    } else if i == 2 {
        reveal_strlit("de");
    } else if i == 3 {
        reveal_strlit("es");
    } else if i == 4 {
        reveal_strlit("ru");
    } else if i == 5 {
        reveal_strlit("ko");
    } else if i == 6 {
        reveal_strlit("fr");
    } else if i == 7 {
        reveal_strlit("ja");
    } else if i == 8 {
        reveal_strlit("pt");
    } else if i == 9 {
        reveal_strlit("tr");
    } else if i == 10 {
        reveal_strlit("pl");
    } else if i == 11 {
        reveal_strlit("ca");
    } else if i == 12 {
        reveal_strlit("nl");
    } else if i == 13 {
        reveal_strlit("ar");
    } else if i == 14 {
        reveal_strlit("sv");
    } else if i == 15 {
        reveal_strlit("it");
    } else if i == 16 {
        reveal_strlit("id");
    } else if i == 17 {
        reveal_strlit("hi");
    } else if i == 18 {
        reveal_strlit("fi");
    } else if i == 19 {
        reveal_strlit("vi");
    } else if i == 20 {
        reveal_strlit("he");
    } else if i == 21 {
        reveal_strlit("uk");
    } else if i == 22 {
        reveal_strlit("el");
    } else if i == 23 {
        reveal_strlit("ms");
    } else if i == 24 {
        reveal_strlit("cs");
    } else if i == 25 {
        reveal_strlit("ro");
    } else if i == 26 {
        reveal_strlit("da");
    } else if i == 27 {
        reveal_strlit("hu");
    } else if i == 28 {
        reveal_strlit("ta");
    } else if i == 29 {
        reveal_strlit("no");
    } else if i == 30 {
        reveal_strlit("th");
    } else if i == 31 {
        reveal_strlit("ur");
    } else if i == 32 {
        reveal_strlit("hr");
    } else if i == 33 {
        reveal_strlit("bg");
    } else if i == 34 {
        reveal_strlit("lt");
    } else if i == 35 {
        reveal_strlit("la");
    } else if i == 36 {
        reveal_strlit("mi");
    } else if i == 37 {
        reveal_strlit("ml");
    } else if i == 38 {
        reveal_strlit("cy");
    } else if i == 39 {
        reveal_strlit("sk");
    } else if i == 40 {
        reveal_strlit("te");
    } else if i == 41 {
        reveal_strlit("fa");
    } else if i == 42 {
        reveal_strlit("lv");
    } else if i == 43 {
        reveal_strlit("bn");
    } else if i == 44 {
        reveal_strlit("sr");
    } else if i == 45 {
        reveal_strlit("az");
    } else if i == 46 {
        reveal_strlit("sl");
    } else if i == 47 {
        reveal_strlit("kn");
    } else if i == 48 {
        reveal_strlit("et");
    } else if i == 49 {
        reveal_strlit("mk");
    } else if i == 50 {
        reveal_strlit("br");
    } else if i == 51 {
        reveal_strlit("eu");
    } else if i == 52 {
        reveal_strlit("is");
    } else if i == 53 {
        reveal_strlit("hy");
    } else if i == 54 {
        reveal_strlit("ne");
    } else if i == 55 {
        reveal_strlit("mn");
    } else if i == 56 {
        reveal_strlit("bs");
    } else if i == 57 {
        reveal_strlit("kk");
    } else if i == 58 {
        reveal_strlit("sq");
    } else if i == 59 {
        reveal_strlit("sw");
    } else if i == 60 {
        reveal_strlit("gl");
    } else if i == 61 {
        reveal_strlit("mr");
    } else if i == 62 {
        reveal_strlit("pa");
    } else if i == 63 {
        reveal_strlit("si");
    } else if i == 64 {
        reveal_strlit("km");
    } else if i == 65 {
        reveal_strlit("sn");
    } else if i == 66 {
        reveal_strlit("yo");
    } else if i == 67 {
        reveal_strlit("so");
    } else if i == 68 {
        reveal_strlit("af");
    } else if i == 69 {
        reveal_strlit("oc");
    } else if i == 70 {
        reveal_strlit("ka");
    } else if i == 71 {
        reveal_strlit("be");
    } else if i == 72 {
        reveal_strlit("tg");
    } else if i == 73 {
        reveal_strlit("sd");
    } else if i == 74 {
        reveal_strlit("gu");
    } else if i == 75 {
        reveal_strlit("am");
    } else if i == 76 {
        reveal_strlit("yi");
    } else if i == 77 {
        reveal_strlit("lo");
    } else if i == 78 {
        reveal_strlit("uz");
    } else if i == 79 {
        reveal_strlit("fo");
    } else if i == 80 {
        reveal_strlit("ht");
    } else if i == 81 {
        reveal_strlit("ps");
    } else if i == 82 {
        reveal_strlit("tk");
    } else if i == 83 {
        reveal_strlit("nn");
    } else if i == 84 {
        reveal_strlit("mt");
    } else if i == 85 {
        reveal_strlit("sa");
    } else if i == 86 {
        reveal_strlit("lb");
    } else if i == 87 {
        reveal_strlit("my");
    } else if i == 88 {
        reveal_strlit("bo");
    } else if i == 89 {
        reveal_strlit("tl");
    } else if i == 90 {
        reveal_strlit("mg");
    } else if i == 91 {
        reveal_strlit("as");
    } else if i == 92 {
        reveal_strlit("tt");
    } else if i == 93 {
        reveal_strlit("haw");
    } else if i == 94 {
        reveal_strlit("ln");
    } else if i == 95 {
        reveal_strlit("ha");
    } else if i == 96 {
        reveal_strlit("ba");
    } else if i == 97 {
        reveal_strlit("jw");
    } else if i == 98 {
        reveal_strlit("su");
    } else {
        reveal_strlit("yue");
    }
}

/// The codes are words of two or three lower-case letters, and no two are the same.
pub proof fn codes_are_distinct(i: int, j: int)
    requires
        0 <= i < LANGUAGE_COUNT,
        0 <= j < LANGUAGE_COUNT,
    ensures
        2 <= code_at(i).len() <= 3,
        forall|k: int| 0 <= k < code_at(i).len() ==> 'a' as u32 <= (#[trigger] code_at(i)[k]) as u32
            <= 'z' as u32,
        code_at(i) == code_at(j) ==> i == j,
{
    lemma_code(i);
    lemma_code(j);
}

/// A code of the table is found at its place among the first `n` codes, if it is one of them.
pub proof fn code_is_found_at_its_place(i: int, n: nat)
    requires
        0 <= i < LANGUAGE_COUNT,
    ensures
        index_in(first_codes(n), code_at(i)) == (if i < n {
            Some(i as nat)
        } else {
            None::<nat>
        }),
{
    let table = first_codes(n);
    lemma_index_in(table, code_at(i));
    assert forall|j: int| 0 <= j < table.len() implies (#[trigger] table[j] == code_at(i) <==> j
        == i) by {
        codes_are_distinct(i, j);
    }
    if i < n {
        assert(table[i] == code_at(i));
    }
}

/// A number for a name of at least three characters.
spec fn name_key(name: Seq<char>) -> int {
    name.len() * 4294967296 + name[0] as int * 16777216 + name[1] as int * 65536 + name[2] as int
        * 256 + name.last() as int
}

/// The position in the table of the name with that number.
spec fn name_index(key: int) -> int {
    if key == 31766505320 {
        0
    } else if key == 31732558181 {
        1
    } else if key == 27504505454 {
        2
    } else if key == 32001515880 {
        3
    } else if key == 31985070958 {
        4
    } else if key == 27572269678 {
        5
    } else if key == 27488576872 {
        6
    } else if key == 36144509029 {
        7
    } else if key == 44836024933 {
        8
    } else if key == 32018625128 {
        9
    } else if key == 27656154216 {
        10
    } else if key == 31732102254 {
        11
    } else if key == 23160255592 {
        12
    } else if key == 27404689763 {
        13
    } else if key == 32001975656 {
        14
    } else if key == 31834005870 {
        15
    } else if key == 44718515310 {
        16
    } else if key == 23226576489 {
        17
    } else if key == 31782956648 {
        18
    } else if key == 44936291685 {
        19
    } else if key == 27521278583 {
        20
    } else if key == 40624681582 {
        21
    } else if key == 23210386795 {
        22
    } else if key == 23309937785 {
        23
    } else if key == 23143802216 {
        24
    } else if key == 36279643502 {
        25
    } else if key == 27453910632 {
        26
    } else if key == 40407232110 {
        27
    } else if key == 23427378540 {
        28
    } else if key == 40507503214 {
        29
    } else if key == 19132866921 {
        30
    } else if key == 19150300277 {
        31
    } else if key == 36028182382 {
        32
    } else if key == 40306568302 {
        33
    } else if key == 44768523374 {
        34
    } else if key == 23293162606 {
        35
    } else if key == 23309938537 {
        36
    } else if key == 40489806957 {
        37
    } else if key == 23477972072 {
        38
    } else if key == 27706290027 {
        39
    } else if key == 27722607733 {
        40
    } else if key == 31950467694 {
        41
    } else if key == 31883097198 {
        42
    } else if key == 31715585641 {
        43
    } else if key == 32000799342 {
        44
    } else if key == 48880051561 {
        45
    } else if key == 40591191918 {
        46
    } else if key == 31866318433 {
        47
    } else if key == 36061803630 {
        48
    } else if key == 44784771950 {
        49
    } else if key == 27421468014 {
        50
    } else if key == 27420357477 {
        51
    } else if key == 40422827363 {
        52
    } else if key == 35994627438 {
        53
    } else if key == 27621945449 {
        54
    } else if key == 40490724974 {
        55
    } else if key == 31716242286 {
        56
    } else if key == 27571354216 {
        57
    } else if key == 35994231406 {
        58
    } else if key == 32001974633 {
        59
    } else if key == 36094176366 {
        60
    } else if key == 31899873897 {
        61
    } else if key == 31951515241 {
        62
    } else if key == 32001060449 {
        63
    } else if key == 23276842354 {
        64
    } else if key == 23411060577 {
        65
    } else if key == 27807150689 {
        66
    } else if key == 27706486121 {
        67
    } else if key == 40288809587 {
        68
    } else if key == 31933555566 {
        69
    } else if key == 36094439278 {
        70
    } else if key == 44600487022 {
        71
    } else if key == 23427377771 {
        72
    } else if key == 27706093161 {
        73
    } else if key == 36095486569 {
        74
    } else if key == 31699331171 {
        75
    } else if key == 32101721192 {
        76
    } else if key == 14703226735 {
        77
    } else if key == 23445791339 {
        78
    } else if key == 31782433381 {
        79
    } else if key == 61880756581 {
        80
    } else if key == 27655238511 {
        81
    } else if key == 32018625134 {
        82
    } else if key == 31918222955 {
        83
    } else if key == 31899872357 {
        84
    } else if key == 36295503476 {
        85
    } else if key == 57654212712 {
        86
    } else if key == 31901442418 {
        87
    } else if key == 32017834606 {
        88
    } else if key == 32017311591 {
        89
    } else if key == 36194839673 {
        90
    } else if key == 35994694501 {
        91
    } else if key == 23427380338 {
        92
    } else if key == 36110956398 {
        93
    } else if key == 31883619937 {
        94
    } else if key == 23226053985 {
        95
    } else if key == 31715324786 {
        96
    } else if key == 36144510565 {
        97
    } else if key == 40591781477 {
        98
    } else if key == 40322035301 {
        99
    } else {
        100
    }
}

/// A name is longer than any code, or is "lao", which is none; and it tells its position in the
/// table.
#[verifier::rlimit(60)]
proof fn lemma_name(i: int)
    requires
        0 <= i < LANGUAGE_COUNT,
    ensures
        name_at(i).len() > 3 || (name_at(i).len() == 3 && key_index(code_key(name_at(i))) == 100),
        name_index(name_key(name_at(i))) == i,
{
    if i == 0 {
        reveal_strlit("english");
    } else if i == 1 {
        reveal_strlit("chinese");
    } else if i == 2 {
        reveal_strlit("german");
    } else if i == 3 {
        reveal_strlit("spanish");
    } else if i == 4 {
        reveal_strlit("russian");
    } else if i == 5 {
        reveal_strlit("korean");
    } else if i == 6 {
        reveal_strlit("french");
    } else if i == 7 {
        reveal_strlit("japanese");
    } else if i == 8 {
        reveal_strlit("portuguese");
    } else if i == 9 {
        reveal_strlit("turkish");
    } else if i == 10 {
        reveal_strlit("polish");
    } else if i == 11 {
        reveal_strlit("catalan");
    } else if i == 12 {
        reveal_strlit("dutch");
    } else if i == 13 {
        reveal_strlit("arabic");
    } else if i == 14 {
        reveal_strlit("swedish");
    } else if i == 15 {
        reveal_strlit("italian");
    } else if i == 16 {
        reveal_strlit("indonesian");
    } else if i == 17 {
        reveal_strlit("hindi");
    } else if i == 18 {
        reveal_strlit("finnish");
    } else if i == 19 {
        reveal_strlit("vietnamese");
    } else if i == 20 {
        reveal_strlit("hebrew");
    } else if i == 21 {
        reveal_strlit("ukrainian");
    } else if i == 22 {
        reveal_strlit("greek");
    } else if i == 23 {
        reveal_strlit("malay");
    } else if i == 24 {
        reveal_strlit("czech");
    } else if i == 25 {
        reveal_strlit("romanian");
    } else if i == 26 {
        reveal_strlit("danish");
    } else if i == 27 {
        reveal_strlit("hungarian");
    } else if i == 28 {
        reveal_strlit("tamil");
    } else if i == 29 {
        reveal_strlit("norwegian");
    } else if i == 30 {
        reveal_strlit("thai");
    } else if i == 31 {
        reveal_strlit("urdu");
    } else if i == 32 {
        reveal_strlit("croatian");
    } else if i == 33 {
        reveal_strlit("bulgarian");
    } else if i == 34 {
        reveal_strlit("lithuanian");
    } else if i == 35 {
        reveal_strlit("latin");
    } else if i == 36 {
        reveal_strlit("maori");
    } else if i == 37 {
        reveal_strlit("malayalam");
    } else if i == 38 {
        reveal_strlit("welsh");
    } else if i == 39 {
        reveal_strlit("slovak");
    } else if i == 40 {
        reveal_strlit("telugu");
    } else if i == 41 {
        reveal_strlit("persian");
    } else if i == 42 {
        reveal_strlit("latvian");
    } else if i == 43 {
        reveal_strlit("bengali");
    } else if i == 44 {
        reveal_strlit("serbian");
    } else if i == 45 {
        reveal_strlit("azerbaijani");
    } else if i == 46 {
        reveal_strlit("slovenian");
    } else if i == 47 {
        reveal_strlit("kannada");
    } else if i == 48 {
        reveal_strlit("estonian");
    } else if i == 49 {
        reveal_strlit("macedonian");
    } else if i == 50 {
        reveal_strlit("breton");
    } else if i == 51 {
        reveal_strlit("basque");
    } else if i == 52 {
        reveal_strlit("icelandic");
    } else if i == 53 {
        reveal_strlit("armenian");
    } else if i == 54 {
        reveal_strlit("nepali");
    } else if i == 55 {
        reveal_strlit("mongolian");
    } else if i == 56 {
        reveal_strlit("bosnian");
    } else if i == 57 {
        reveal_strlit("kazakh");
    } else if i == 58 {
        reveal_strlit("albanian");
    } else if i == 59 {
        reveal_strlit("swahili");
    } else if i == 60 {
        reveal_strlit("galician");
    } else if i == 61 {
        reveal_strlit("marathi");
    } else if i == 62 {
        reveal_strlit("punjabi");
    } else if i == 63 {
        reveal_strlit("sinhala");
    } else if i == 64 {
        reveal_strlit("khmer");
    } else if i == 65 {
        reveal_strlit("shona");
    } else if i == 66 {
        reveal_strlit("yoruba");
    } else if i == 67 {
        reveal_strlit("somali");
    } else if i == 68 {
        reveal_strlit("afrikaans");
    } else if i == 69 {
        reveal_strlit("occitan");
    } else if i == 70 {
        reveal_strlit("georgian");
    } else if i == 71 {
        reveal_strlit("belarusian");
    } else if i == 72 {
        reveal_strlit("tajik");
    } else if i == 73 {
        reveal_strlit("sindhi");
    } else if i == 74 {
        reveal_strlit("gujarati");
    } else if i == 75 {
        reveal_strlit("amharic");
    } else if i == 76 {
        reveal_strlit("yiddish");
    } else if i == 77 {
        reveal_strlit("lao");
    } else if i == 78 {
        reveal_strlit("uzbek");
    } else if i == 79 {
        reveal_strlit("faroese");
    } else if i == 80 {
        reveal_strlit("haitian creole");
    } else if i == 81 {
        reveal_strlit("pashto");
    } else if i == 82 {
        reveal_strlit("turkmen");
    } else if i == 83 {
        reveal_strlit("nynorsk");
    } else if i == 84 {
        reveal_strlit("maltese");
    } else if i == 85 {
        reveal_strlit("sanskrit");
    } else if i == 86 {
        reveal_strlit("luxembourgish");
    } else if i == 87 {
        reveal_strlit("myanmar");
    } else if i == 88 {
        reveal_strlit("tibetan");
    } else if i == 89 {
        reveal_strlit("tagalog");
    } else if i == 90 {
        reveal_strlit("malagasy");
    } else if i == 91 {
        reveal_strlit("assamese");
    } else if i == 92 {
        reveal_strlit("tatar");
    } else if i == 93 {
        reveal_strlit("hawaiian");
    } else if i == 94 {
        reveal_strlit("lingala");
    } else if i == 95 {
        reveal_strlit("hausa");
    } else if i == 96 {
        reveal_strlit("bashkir");
    } else if i == 97 {
        reveal_strlit("javanese");
    } else if i == 98 {
        reveal_strlit("sundanese");
    } else {
        reveal_strlit("cantonese");
    }
}

/// The names are all different, and none is a code.
pub proof fn names_are_distinct(i: int, j: int)
    requires
        0 <= i < LANGUAGE_COUNT,
        0 <= j < LANGUAGE_COUNT,
    ensures
        name_at(i) == name_at(j) ==> i == j,
        name_at(i) != code_at(j),
{
    lemma_name(i);
    lemma_name(j);
    lemma_code(j);
}

/// Every name of the table stands for the code at its place.
pub proof fn names_stand_for_their_codes(i: int)
    requires
        0 <= i < LANGUAGE_COUNT,
    ensures
        language_code_of(name_at(i)) == Some(code_at(i)),
{
    lemma_index_in(language_codes(), name_at(i));
    lemma_index_in(language_names(), name_at(i));
    assert forall|j: int| 0 <= j < LANGUAGE_COUNT implies #[trigger] language_codes()[j] != name_at(
        i,
    ) by {
        names_are_distinct(i, j);
    }
    assert forall|j: int| 0 <= j < LANGUAGE_COUNT implies (#[trigger] language_names()[j]
        == name_at(i) <==> j == i) by {
        names_are_distinct(i, j);
    }
    assert(language_names()[i] == name_at(i));
}

/// Every code stands for itself.
pub proof fn codes_stand_for_themselves(i: int)
    requires
        0 <= i < LANGUAGE_COUNT,
    ensures
        language_code_of(code_at(i)) == Some(code_at(i)),
{
    code_is_found_at_its_place(i, LANGUAGE_COUNT as nat);
    assert(first_codes(LANGUAGE_COUNT as nat) =~= language_codes());
}

/// An alias is longer than any code, and is no name of the table.
proof fn lemma_alias(name: Seq<char>)
    requires
        alias_code(name) is Some,
    ensures
        name.len() > 3,
        name_index(name_key(name)) == 100,
{
    if name == "burmese"@ {
        reveal_strlit("burmese");
    } else if name == "valencian"@ {
        reveal_strlit("valencian");
    } else if name == "flemish"@ {
        reveal_strlit("flemish");
    } else if name == "haitian"@ {
        reveal_strlit("haitian");
    } else if name == "letzeburgesch"@ {
        reveal_strlit("letzeburgesch");
    } else if name == "pushto"@ {
        reveal_strlit("pushto");
    } else if name == "panjabi"@ {
        reveal_strlit("panjabi");
    } else if name == "moldavian"@ {
        reveal_strlit("moldavian");
    } else if name == "moldovan"@ {
        reveal_strlit("moldovan");
    } else if name == "sinhalese"@ {
        reveal_strlit("sinhalese");
    } else if name == "castilian"@ {
        reveal_strlit("castilian");
    } else {
        reveal_strlit("mandarin");
    }
}

/// Every alias stands for the code that is listed for it.
pub proof fn aliases_stand_for_their_codes(name: Seq<char>)
    requires
        alias_code(name) is Some,
    ensures
        language_code_of(name) == alias_code(name),
{
    lemma_alias(name);
    lemma_index_in(language_codes(), name);
    lemma_index_in(language_names(), name);
    if let Some(j) = index_in(language_codes(), name) {
        lemma_code(j as int);
    }
    if let Some(j) = index_in(language_names(), name) {
        lemma_name(j as int);
    }
}

/// What is no code, no name and no alias stands for nothing.
pub proof fn other_names_stand_for_nothing(name: Seq<char>)
    requires
        forall|i: int| 0 <= i < LANGUAGE_COUNT ==> #[trigger] code_at(i) != name,
        forall|i: int| 0 <= i < LANGUAGE_COUNT ==> #[trigger] name_at(i) != name,
        alias_code(name) is None,
    ensures
        language_code_of(name) is None,
{
    lemma_index_in(language_codes(), name);
    lemma_index_in(language_names(), name);
}

/// The code found for a language is a code of the table, and stands for itself.
pub proof fn found_codes_are_in_the_table(name: Seq<char>)
    ensures
        language_code_of(name) matches Some(code) ==> language_code_of(code) == Some(code)
            && exists|i: int| 0 <= i < LANGUAGE_COUNT && #[trigger] code_at(i) == code,
{
    lemma_index_in(language_codes(), name);
    lemma_index_in(language_names(), name);
    if let Some(i) = index_in(language_codes(), name) {
        assert(code_at(i as int) == name);
    } else if index_in(language_names(), name) is None {
        assert(code_at(1) == "zh"@ && code_at(3) == "es"@ && code_at(11) == "ca"@ && code_at(12)
            == "nl"@ && code_at(25) == "ro"@ && code_at(62) == "pa"@ && code_at(63) == "si"@
            && code_at(80) == "ht"@ && code_at(81) == "ps"@ && code_at(86) == "lb"@ && code_at(87)
            == "my"@);
    }
    if let Some(code) = language_code_of(name) {
        let i = choose|i: int| 0 <= i < LANGUAGE_COUNT && #[trigger] code_at(i) == code;
        codes_stand_for_themselves(i);
    }
}

/// The code of language `i` of the table.
pub fn language_code(i: usize) -> (r: &'static str)
    requires
        i < LANGUAGE_COUNT,
    ensures
        r@ == code_at(i as int),
{
    match i {
        0 => "en",
        1 => "zh",
        2 => "de",
        3 => "es",
        4 => "ru",
        5 => "ko",
        6 => "fr",
        7 => "ja",
        8 => "pt",
        9 => "tr",
        10 => "pl",
        11 => "ca",
        12 => "nl",
        13 => "ar",
        14 => "sv",
        15 => "it",
        16 => "id",
        17 => "hi",
        18 => "fi",
        19 => "vi",
        20 => "he",
        21 => "uk",
        22 => "el",
        23 => "ms",
        24 => "cs",
        25 => "ro",
        26 => "da",
        27 => "hu",
        28 => "ta",
        29 => "no",
        30 => "th",
        31 => "ur",
        32 => "hr",
        33 => "bg",
        34 => "lt",
        35 => "la",
        36 => "mi",
        37 => "ml",
        38 => "cy",
        39 => "sk",
        40 => "te",
        41 => "fa",
        42 => "lv",
        43 => "bn",
        44 => "sr",
        45 => "az",
        46 => "sl",
        47 => "kn",
        48 => "et",
        49 => "mk",
        50 => "br",
        51 => "eu",
        52 => "is",
        53 => "hy",
        54 => "ne",
        55 => "mn",
        56 => "bs",
        57 => "kk",
        58 => "sq",
        59 => "sw",
        60 => "gl",
        61 => "mr",
        62 => "pa",
        63 => "si",
        64 => "km",
        65 => "sn",
        66 => "yo",
        67 => "so",
        68 => "af",
        69 => "oc",
        70 => "ka",
        71 => "be",
        72 => "tg",
        73 => "sd",
        74 => "gu",
        75 => "am",
        76 => "yi",
        77 => "lo",
        78 => "uz",
        79 => "fo",
        80 => "ht",
        81 => "ps",
        82 => "tk",
        83 => "nn",
        84 => "mt",
        85 => "sa",
        86 => "lb",
        87 => "my",
        88 => "bo",
        89 => "tl",
        90 => "mg",
        91 => "as",
        92 => "tt",
        93 => "haw",
        94 => "ln",
        95 => "ha",
        96 => "ba",
        97 => "jw",
        98 => "su",
        _ => "yue",
    }
}

/// The English name of language `i` of the table.
pub fn language_name(i: usize) -> (r: &'static str)
    requires
        i < LANGUAGE_COUNT,
    ensures
        r@ == name_at(i as int),
{
    match i {
        0 => "english",
        1 => "chinese",
        2 => "german",
        3 => "spanish",
        4 => "russian",
        5 => "korean",
        6 => "french",
        7 => "japanese",
        8 => "portuguese",
        9 => "turkish",
        10 => "polish",
        11 => "catalan",
        12 => "dutch",
        13 => "arabic",
        14 => "swedish",
        15 => "italian",
        16 => "indonesian",
        17 => "hindi",
        18 => "finnish",
        19 => "vietnamese",
        20 => "hebrew",
        21 => "ukrainian",
        22 => "greek",
        23 => "malay",
        24 => "czech",
        25 => "romanian",
        26 => "danish",
        27 => "hungarian",
        28 => "tamil",
        29 => "norwegian",
        30 => "thai",
        31 => "urdu",
        32 => "croatian",
        33 => "bulgarian",
        34 => "lithuanian",
        35 => "latin",
        36 => "maori",
        37 => "malayalam",
        38 => "welsh",
        39 => "slovak",
        40 => "telugu",
        41 => "persian",
        42 => "latvian",
        43 => "bengali",
        44 => "serbian",
        45 => "azerbaijani",
        46 => "slovenian",
        47 => "kannada",
        48 => "estonian",
        49 => "macedonian",
        50 => "breton",
        51 => "basque",
        52 => "icelandic",
        53 => "armenian",
        54 => "nepali",
        55 => "mongolian",
        56 => "bosnian",
        57 => "kazakh",
        58 => "albanian",
        59 => "swahili",
        60 => "galician",
        61 => "marathi",
        62 => "punjabi",
        63 => "sinhala",
        64 => "khmer",
        65 => "shona",
        66 => "yoruba",
        67 => "somali",
        68 => "afrikaans",
        69 => "occitan",
        70 => "georgian",
        71 => "belarusian",
        72 => "tajik",
        73 => "sindhi",
        74 => "gujarati",
        75 => "amharic",
        76 => "yiddish",
        77 => "lao",
        78 => "uzbek",
        79 => "faroese",
        80 => "haitian creole",
        81 => "pashto",
        82 => "turkmen",
        83 => "nynorsk",
        84 => "maltese",
        85 => "sanskrit",
        86 => "luxembourgish",
        87 => "myanmar",
        88 => "tibetan",
        89 => "tagalog",
        90 => "malagasy",
        91 => "assamese",
        92 => "tatar",
        93 => "hawaiian",
        94 => "lingala",
        95 => "hausa",
        96 => "bashkir",
        97 => "javanese",
        98 => "sundanese",
        _ => "cantonese",
    }
}

/// Looks for a code among the first `n` languages.
pub fn find_code(code: &str, n: usize) -> (r: Option<usize>)
    ensures
        match r {
            Some(i) => index_in(first_codes(n as nat), code@) == Some(i as nat),
            None => index_in(first_codes(n as nat), code@) is None,
        },
        r matches Some(i) ==> i < n && i < LANGUAGE_COUNT && code_at(i as int) == code@,
{
    let end: usize = if n < LANGUAGE_COUNT {
        n
    } else {
        LANGUAGE_COUNT
    };
    let ghost table = first_codes(n as nat);
    let mut i: usize = 0;
    assert(table.skip(0) =~= table);
    while i < end
        invariant
            i <= end <= LANGUAGE_COUNT,
            end <= n,
            table == first_codes(n as nat),
            table.len() == end,
            match index_in(table.skip(i as int), code@) {
                Some(k) => index_in(table, code@) == Some((i + k) as nat),
                None => index_in(table, code@) is None,
            },
        decreases end - i,
    {
        assert(table.skip(i as int)[0] == code_at(i as int));
        if same_text(language_code(i), code) {
            return Some(i);
        }
        assert(table.skip(i as int).drop_first() =~= table.skip(i + 1));
        i += 1;
    }
    None
}

/// Looks for a language name in the table.
pub fn find_name(name: &str) -> (r: Option<usize>)
    ensures
        match r {
            Some(i) => index_in(language_names(), name@) == Some(i as nat),
            None => index_in(language_names(), name@) is None,
        },
        r matches Some(i) ==> i < LANGUAGE_COUNT,
{
    let ghost table = language_names();
    let mut i: usize = 0;
    assert(table.skip(0) =~= table);
    while i < LANGUAGE_COUNT
        invariant
            i <= LANGUAGE_COUNT,
            table == language_names(),
            match index_in(table.skip(i as int), name@) {
                Some(k) => index_in(table, name@) == Some((i + k) as nat),
                None => index_in(table, name@) is None,
            },
        decreases LANGUAGE_COUNT - i,
    {
        assert(table.skip(i as int)[0] == name_at(i as int));
        if same_text(language_name(i), name) {
            return Some(i);
        }
        assert(table.skip(i as int).drop_first() =~= table.skip(i + 1));
        i += 1;
    }
    None
}

/// The code that another name for a language stands for.
fn find_alias(name: &str) -> (r: Option<&'static str>)
    ensures
        match r {
            Some(code) => alias_code(name@) == Some(code@),
            None => alias_code(name@) is None,
        },
{
    if same_text(name, "burmese") {
        Some("my")
    } else if same_text(name, "valencian") {
        Some("ca")
    } else if same_text(name, "flemish") {
        Some("nl")
    } else if same_text(name, "haitian") {
        Some("ht")
    } else if same_text(name, "letzeburgesch") {
        Some("lb")
    } else if same_text(name, "pushto") {
        Some("ps")
    } else if same_text(name, "panjabi") {
        Some("pa")
    } else if same_text(name, "moldavian") {
        Some("ro")
    } else if same_text(name, "moldovan") {
        Some("ro")
    } else if same_text(name, "sinhalese") {
        Some("si")
    } else if same_text(name, "castilian") {
        Some("es")
    } else if same_text(name, "mandarin") {
        Some("zh")
    } else {
        None
    }
}

/// The code of the language that `name` denotes, where it denotes one.
pub fn to_language_code(name: &str) -> (r: Option<&'static str>)
    ensures
        match r {
            Some(code) => language_code_of(name@) == Some(code@),
            None => language_code_of(name@) is None,
        },
{
    assert(first_codes(LANGUAGE_COUNT as nat) =~= language_codes());
    if let Some(i) = find_code(name, LANGUAGE_COUNT) {
        return Some(language_code(i));
    }
    if let Some(i) = find_name(name) {
        return Some(language_code(i));
    }
    find_alias(name)
}

} // verus!
