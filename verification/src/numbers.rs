//! Decimal numbers: reading integers the way `str::parse` does, and writing them.

use vstd::prelude::*;

verus! {

/// Whether `c` is one of `0` to `9`.
pub open spec fn is_digit(c: char) -> bool {
    '0' as u32 <= c as u32 <= '9' as u32
}

/// Whether `s` is a nonempty run of digits.
pub open spec fn is_digits(s: Seq<char>) -> bool {
    &&& s.len() > 0
    &&& forall|i: int| 0 <= i < s.len() ==> is_digit(#[trigger] s[i])
}

/// The number that a run of digits denotes.
pub open spec fn digits_value(s: Seq<char>) -> nat
    decreases s.len(),
{
    if s.len() == 0 {
        0
    } else {
        digits_value(s.drop_last()) * 10 + (s.last() as u32 - '0' as u32) as nat
    }
}

/// The integer that `s` denotes: digits behind an optional `+` or, where `signed`, an optional
/// `-`. `None` where `s` is no such text.
pub open spec fn integer_value(s: Seq<char>, signed: bool) -> Option<int> {
    if s.len() > 0 && (s[0] == '+' || (signed && s[0] == '-')) {
        if is_digits(s.skip(1)) {
            let v = digits_value(s.skip(1)) as int;
            Some(if s[0] == '-' { -v } else { v })
        } else {
            None
        }
    } else if is_digits(s) {
        Some(digits_value(s) as int)
    } else {
        None
    }
}

/// `integer_value`, where it lies between `lo` and `hi`.
pub open spec fn bounded_integer(s: Seq<char>, signed: bool, lo: int, hi: int) -> Option<int> {
    match integer_value(s, signed) {
        Some(v) if lo <= v <= hi => Some(v),
        _ => None,
    }
}

/// Digits appended to a number can only make it larger.
proof fn lemma_digits_grow(s: Seq<char>, n: int)
    requires
        0 <= n <= s.len(),
        forall|i: int| 0 <= i < s.len() ==> is_digit(#[trigger] s[i]),
    ensures
        digits_value(s.take(n)) <= digits_value(s),
    decreases s.len() - n,
{
    if n < s.len() {
        let t = s.take(n + 1);
        assert(t.drop_last() =~= s.take(n));
        assert(is_digit(t.last()));
        lemma_digits_grow(s, n + 1);
    } else {
        assert(s.take(n) =~= s);
    }
}

/// Reads a run of digits; `None` where it is none, or the number passes `max`.
fn read_digits(s: &[char], max: u64) -> (r: Option<u64>)
    requires
        max <= 0x8000_0000_0000_0000,
    ensures
        r == (if is_digits(s@) && digits_value(s@) <= max {
            Some(digits_value(s@) as u64)
        } else {
            None
        }),
{
    if s.len() == 0 {
        return None;
    }
    let mut v: u64 = 0;
    let mut over = false;
    let mut i: usize = 0;
    while i < s.len()
        invariant
            i <= s@.len(),
            max <= 0x8000_0000_0000_0000,
            v <= max,
            forall|j: int| 0 <= j < i ==> is_digit(#[trigger] s@[j]),
            !over ==> v == digits_value(s@.take(i as int)),
            over ==> exists|n: int|
                0 <= n <= i && digits_value(#[trigger] s@.take(n)) > max,
        decreases s@.len() - i,
    {
        let c: u32 = s[i] as u32;
        if c < 48 || c > 57 {
            assert(!is_digit(s@[i as int]));
            return None;
        }
        assert(is_digit(s@[i as int]));
        let d: u64 = (c - 48) as u64;
        assert(s@.take(i + 1).drop_last() =~= s@.take(i as int));
        if !over {
            if d > max || v > (max - d) / 10 {
                over = true;
                assert(digits_value(s@.take(i + 1)) > max) by {
                    if d <= max {
                        assert(v * 10 + d > max) by (nonlinear_arith)
                            requires
                                v > (max - d) / 10,
                                d <= max,
                        ;
                    }
                }
            } else {
                v = v * 10 + d;
            }
        }
        i += 1;
    }
    assert(s@.take(s@.len() as int) =~= s@);
    if over {
        proof {
            let n = choose|n: int| 0 <= n <= s@.len() && digits_value(#[trigger] s@.take(n)) > max;
            lemma_digits_grow(s@, n);
        }
        None
    } else {
        Some(v)
    }
}

/// Reads an unsigned 32-bit number.
pub fn parse_u32(s: &[char]) -> (r: Option<u32>)
    ensures
        r == (match bounded_integer(s@, false, 0, u32::MAX as int) {
            Some(v) => Some(v as u32),
            None => None,
        }),
{
    let body = if s.len() > 0 && s[0] == '+' {
        &s[1..s.len()]
    } else {
        s
    };
    assert(s@.len() > 0 ==> s@.subrange(1, s@.len() as int) =~= s@.skip(1));
    match read_digits(body, 0xffff_ffff) {
        Some(v) => Some(v as u32),
        None => None,
    }
}

/// Reads a signed 64-bit number.
pub fn parse_i64(s: &[char]) -> (r: Option<i64>)
    ensures
        r == (match bounded_integer(s@, true, i64::MIN as int, i64::MAX as int) {
            Some(v) => Some(v as i64),
            None => None,
        }),
{
    assert(s@.len() > 0 ==> s@.subrange(1, s@.len() as int) =~= s@.skip(1));
    if s.len() > 0 && s[0] == '-' {
        match read_digits(&s[1..s.len()], 0x8000_0000_0000_0000) {
            Some(v) => {
                if v == 0x8000_0000_0000_0000 {
                    Some(i64::MIN)
                } else {
                    Some(-(v as i64))
                }
            },
            None => None,
        }
    } else {
        let body = if s.len() > 0 && s[0] == '+' {
            &s[1..s.len()]
        } else {
            s
        };
        match read_digits(body, 0x7fff_ffff_ffff_ffff) {
            Some(v) => Some(v as i64),
            None => None,
        }
    }
}

/// Reads a signed 32-bit number.
pub fn parse_i32(s: &[char]) -> (r: Option<i32>)
    ensures
        r == (match bounded_integer(s@, true, i32::MIN as int, i32::MAX as int) {
            Some(v) => Some(v as i32),
            None => None,
        }),
{
    match parse_i64(s) {
        Some(v) => {
            if v >= -0x8000_0000 && v <= 0x7fff_ffff {
                Some(v as i32)
            } else {
                None
            }
        },
        None => None,
    }
}

/// The digit for a number below 10.
pub open spec fn digit(d: nat) -> char {
    ('0' as u32 + d) as char
}

/// The decimal digits of `n`, without leading zeros.
pub open spec fn decimal(n: nat) -> Seq<char>
    decreases n,
{
    if n < 10 {
        seq![digit(n)]
    } else {
        decimal(n / 10).push(digit(n % 10))
    }
}

/// The last `width` decimal digits of `n`, padded with zeros.
pub open spec fn padded_decimal(n: nat, width: nat) -> Seq<char>
    decreases width,
{
    if width == 0 {
        seq![]
    } else {
        padded_decimal(n / 10, (width - 1) as nat).push(digit(n % 10))
    }
}

/// The character of a digit.
pub fn digit_char(d: u64) -> (r: char)
    requires
        d < 10,
    ensures
        r == digit(d as nat),
{
    (48 + d as u8) as char
}

/// Writes a number in decimal.
pub fn decimal_chars(n: u64) -> (r: Vec<char>)
    ensures
        r@ == decimal(n as nat),
    decreases n,
{
    if n < 10 {
        let mut r: Vec<char> = Vec::new();
        r.push(digit_char(n));
        assert(r@ =~= decimal(n as nat));
        r
    } else {
        let mut r = decimal_chars(n / 10);
        r.push(digit_char(n % 10));
        r
    }
}

/// Writes the last `width` decimal digits of a number, padded with zeros.
pub fn padded_decimal_chars(n: u64, width: u32) -> (r: Vec<char>)
    ensures
        r@ == padded_decimal(n as nat, width as nat),
    decreases width,
{
    if width == 0 {
        let r: Vec<char> = Vec::new();
        assert(r@ =~= padded_decimal(n as nat, 0));
        r
    } else {
        let mut r = padded_decimal_chars(n / 10, width - 1);
        r.push(digit_char(n % 10));
        r
    }
}

/// What is written in decimal reads back as the same number.
pub proof fn decimal_reads_back(n: nat)
    ensures
        is_digits(decimal(n)),
        digits_value(decimal(n)) == n,
        integer_value(decimal(n), false) == Some(n as int),
        integer_value(decimal(n), true) == Some(n as int),
    decreases n,
{
    let s = decimal(n);
    if n < 10 {
        assert(s.drop_last() =~= Seq::<char>::empty());
        assert(digits_value(s.drop_last()) == 0);
        assert(s.last() == digit(n));
    } else {
        decimal_reads_back(n / 10);
        assert(s.drop_last() =~= decimal(n / 10));
        assert(s.last() == digit(n % 10));
        assert(is_digit(digit(n % 10)));
        assert forall|i: int| 0 <= i < s.len() implies is_digit(#[trigger] s[i]) by {
            if i < s.len() - 1 {
                assert(s[i] == decimal(n / 10)[i]);
            }
        }
    }
    assert(is_digit(s[0]));
}

} // verus!
