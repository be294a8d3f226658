//! What the library takes from std about Unicode: character classes, lower case and UTF-8.

use vstd::prelude::*;
use vstd::utf8::*;

verus! {

/// U+FFFD, which stands for bytes that are no text.
pub const REPLACEMENT: char = '\u{fffd}';

/// What `char::is_alphabetic` says of a character beyond ASCII.
pub uninterp spec fn unicode_alphabetic(c: char) -> bool;

/// What `char::is_numeric` says of a character beyond ASCII.
pub uninterp spec fn unicode_numeric(c: char) -> bool;

/// What `str::to_lowercase` makes of a text that is not all ASCII.
pub uninterp spec fn unicode_lowercase(s: Seq<char>) -> Seq<char>;

/// What `String::from_utf8_lossy` makes of bytes that are not UTF-8.
pub uninterp spec fn utf8_with_replacements(bytes: Seq<u8>) -> Seq<char>;

/// Whether `c` is an ASCII letter.
pub open spec fn ascii_letter(c: char) -> bool {
    'a' as u32 <= c as u32 <= 'z' as u32 || 'A' as u32 <= c as u32 <= 'Z' as u32
}

/// Whether `c` is a letter: an ASCII letter, or alphabetic beyond ASCII.
pub open spec fn alphabetic(c: char) -> bool {
    if (c as u32) < 0x80 {
        ascii_letter(c)
    } else {
        unicode_alphabetic(c)
    }
}

/// Whether `c` is a number: an ASCII digit, or numeric beyond ASCII.
pub open spec fn numeric(c: char) -> bool {
    if (c as u32) < 0x80 {
        '0' as u32 <= c as u32 <= '9' as u32
    } else {
        unicode_numeric(c)
    }
}

/// `c` in lower case, where it is an ASCII capital.
pub open spec fn ascii_lower(c: char) -> char {
    if 'A' as u32 <= c as u32 <= 'Z' as u32 {
        (c as u32 + 32) as char
    } else {
        c
    }
}

/// `s` in lower case.
pub open spec fn lowercase(s: Seq<char>) -> Seq<char> {
    if is_ascii_chars(s) {
        s.map_values(|c: char| ascii_lower(c))
    } else {
        unicode_lowercase(s)
    }
}

/// The text of `bytes`: what they encode where they are UTF-8; else `String::from_utf8_lossy`
/// decides, which puts U+FFFD in place of what is malformed.
pub open spec fn lossy_text(bytes: Seq<u8>) -> Seq<char> {
    if valid_utf8(bytes) {
        decode_utf8(bytes)
    } else {
        utf8_with_replacements(bytes)
    }
}

/// `char::is_alphabetic` holds of the ASCII letters and of no other ASCII character.
pub assume_specification[ char::is_alphabetic ](c: char) -> (r: bool)
    ensures
        r == (if (c as u32) < 0x80 {
            ascii_letter(c)
        } else {
            unicode_alphabetic(c)
        }),
;

/// `char::is_numeric` holds of the ASCII digits and of no other ASCII character.
pub assume_specification[ char::is_numeric ](c: char) -> (r: bool)
    ensures
        r == (if (c as u32) < 0x80 {
            '0' as u32 <= c as u32 <= '9' as u32
        } else {
            unicode_numeric(c)
        }),
;

/// `str::to_lowercase` changes the capitals of an ASCII text and nothing else in it.
pub assume_specification[ str::to_lowercase ](s: &str) -> (r: String)
    ensures
        r@ == (if is_ascii_chars(s@) {
            s@.map_values(|c: char| ascii_lower(c))
        } else {
            unicode_lowercase(s@)
        }),
;

/// The error of `std::str::from_utf8`.
#[verifier::external_type_specification]
#[verifier::external_body]
pub struct ExUtf8Error(std::str::Utf8Error);

/// `std::str::from_utf8` gives the text that the bytes encode, if and only if they are UTF-8.
pub assume_specification<'a>[ std::str::from_utf8 ](v: &'a [u8]) -> (r: Result<
    &'a str,
    std::str::Utf8Error,
>)
    ensures
        r is Ok <==> valid_utf8(v@),
        r is Ok ==> r->Ok_0@ == decode_utf8(v@),
;

/// `String::from_utf8_lossy` gives the text that the bytes encode where they are UTF-8. The text it
/// makes of other bytes is named; all that is said of it is that it holds U+FFFD.
#[verifier::external_body]
pub(crate) fn decode_lossy(bytes: &[u8]) -> (r: String)
    ensures
        r@ == (if valid_utf8(bytes@) {
            decode_utf8(bytes@)
        } else {
            utf8_with_replacements(bytes@)
        }),
        !valid_utf8(bytes@) ==> r@.contains(REPLACEMENT),
{
    String::from_utf8_lossy(bytes).into_owned()
}

} // verus!
