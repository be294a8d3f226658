//! Text, numbers and tables.

use mlx_whisper_rs::numbers::{
    decimal_chars, padded_decimal_chars, parse_i32, parse_i64, parse_u32,
};
use mlx_whisper_rs::table::{ByteTable, IdTable};
use mlx_whisper_rs::text::{find_char, find_text, split_at_char, trim, TrimSet};

fn chars(s: &str) -> Vec<char> {
    s.chars().collect()
}

fn text(c: &[char]) -> String {
    c.iter().collect()
}

#[test]
fn numbers_are_read_as_by_the_standard_library() {
    for s in [
        "", "0", "+0", "-0", "-", "+", "+-1", "007", "42", "-42", "4294967295", "4294967296",
        "2147483647", "2147483648", "-2147483648", "-2147483649", "9223372036854775807",
        "9223372036854775808", "-9223372036854775808", "-9223372036854775809", " 1", "1 ", "1a",
        "1_0", "\u{661}", "000000000000000000000000000001", "99999999999999999999999999",
    ] {
        assert_eq!(parse_u32(&chars(s)), s.parse::<u32>().ok(), "{s:?}");
        assert_eq!(parse_i32(&chars(s)), s.parse::<i32>().ok(), "{s:?}");
        assert_eq!(parse_i64(&chars(s)), s.parse::<i64>().ok(), "{s:?}");
    }
}

#[test]
fn numbers_are_written() {
    for n in [0, 7, 10, 99, 100, u32::MAX as u64, u64::MAX] {
        assert_eq!(text(&decimal_chars(n)), n.to_string());
    }
    assert_eq!(text(&padded_decimal_chars(7, 2)), "07");
    assert_eq!(text(&padded_decimal_chars(0, 3)), "000");
    assert_eq!(text(&padded_decimal_chars(42, 2)), "42");
    // What is written reads back.
    for n in [0u32, 9, 10, 12345, u32::MAX] {
        assert_eq!(parse_u32(&decimal_chars(n as u64)), Some(n));
    }
}

#[test]
fn texts_are_trimmed() {
    assert_eq!(text(trim(&chars(" \t a b\u{3000}\n"), TrimSet::White)), "a b");
    assert_eq!(text(trim(&chars("((a)b)"), TrimSet::Parentheses)), "a)b");
    assert_eq!(text(trim(&chars(" '\"<f4' "), TrimSet::Quotes)), "<f4");
    assert_eq!(text(trim(&chars("   "), TrimSet::White)), "");
}

#[test]
fn texts_are_searched_and_split() {
    assert_eq!(find_char(&chars("a:b:"), ':'), 1);
    assert_eq!(find_char(&chars("ab"), ':'), 2);
    assert_eq!(find_text(&chars("aabaab"), &chars("ab")), Some(1));
    assert_eq!(find_text(&chars("aab"), &chars("b ")), None);
    assert_eq!(find_text(&chars("ab"), &chars("")), Some(0));
    let parts: Vec<String> = split_at_char(&chars(",a,,b"), ',').iter().map(|p| text(p)).collect();
    assert_eq!(parts, vec!["", "a", "", "b"]);
    let parts: Vec<String> = split_at_char(&chars(""), ',').iter().map(|p| text(p)).collect();
    assert_eq!(parts, vec![""]);
}

#[test]
fn tables_hold_the_last_value_of_a_key() {
    let mut t = ByteTable::new();
    assert_eq!(t.get(b""), None);
    for i in 0..1000u32 {
        t.insert(i.to_string().as_bytes(), i);
    }
    t.insert(b"500", 7);
    t.insert(b"", 8);
    for i in 0..1000u32 {
        let want = if i == 500 { 7 } else { i };
        assert_eq!(t.get(i.to_string().as_bytes()), Some(want));
    }
    assert_eq!(t.get(b""), Some(8));
    assert_eq!(t.get(b"1000"), None);

    let mut t = IdTable::new();
    t.insert(5, b"a".to_vec());
    t.insert(0, b"b".to_vec());
    t.insert(5, b"c".to_vec());
    assert_eq!(t.len(), 2);
    assert_eq!(t.get(5).map(|b| b.to_vec()), Some(b"c".to_vec()));
    assert_eq!(t.get(0).map(|b| b.to_vec()), Some(b"b".to_vec()));
    assert_eq!(t.get(1).map(|b| b.to_vec()), None);
}
