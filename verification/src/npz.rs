//! Arrays of any type in the `.npy` format.

use vstd::prelude::*;
use vstd::utf8::*;

use crate::bytes::{read_u16, read_u32, u16_at, u32_at};
use crate::npy::{is_npy, starts_as_npy};
use crate::numbers::{bounded_integer, parse_i32};
use crate::text::{
    chars_of, find_char, find_text, first_occurrence, first_position, same_text, slice_to_vec, split, split_at_char, string_of, trim, trimmed, TrimSet,
};

verus! {

/// The types of items.
#[derive(Clone, Copy, Debug, PartialEq, Eq, Structural)]
pub enum Dtype {
    Bool,
    Uint8,
    Uint16,
    Uint32,
    Uint64,
    Int8,
    Int16,
    Int32,
    Int64,
    Float16,
    Float32,
    Float64,
    Bfloat16,
    Complex64,
}

/// Why arrays cannot be loaded.
#[derive(Clone, Copy, Debug, PartialEq, Eq, Structural)]
pub enum LoadError {
    /// The bytes do not start as an array does.
    NotNpy,
    /// The bytes end within the header.
    TruncatedHeader,
    /// The header is not UTF-8.
    HeaderNotUtf8,
    /// The header names no type.
    NoDescr,
    /// The header names no shape.
    NoShape,
    /// A name in the header has no value.
    BadHeader,
    /// The type is not quoted.
    BadDescr,
    /// The shape has no closing parenthesis.
    BadShape,
    /// The type is not known.
    UnsupportedDtype,
    /// A part of the shape is no number.
    BadShapeToken,
    /// There are fewer bytes than the shape and the type ask for.
    DataTooShort,
    /// The archive, or an entry of it, cannot be read.
    Archive,
}

/// The type that `descr` names, quotes and spaces around it left out.
pub open spec fn dtype_of(descr: Seq<char>) -> Option<Dtype> {
    let s = trimmed(descr, TrimSet::Quotes);
    if s == "<f2"@ || s == "=f2"@ {
        Some(Dtype::Float16)
    } else if s == "<f4"@ || s == "=f4"@ {
        Some(Dtype::Float32)
    } else if s == "<f8"@ || s == "=f8"@ {
        Some(Dtype::Float64)
    } else if s == "<i2"@ || s == "=i2"@ {
        Some(Dtype::Int16)
    } else if s == "<i4"@ || s == "=i4"@ {
        Some(Dtype::Int32)
    } else if s == "<i8"@ || s == "=i8"@ {
        Some(Dtype::Int64)
    } else if s == "<u1"@ || s == "=u1"@ || s == "|u1"@ {
        Some(Dtype::Uint8)
    } else if s == "<u2"@ || s == "=u2"@ {
        Some(Dtype::Uint16)
    } else if s == "<u4"@ || s == "=u4"@ {
        Some(Dtype::Uint32)
    } else if s == "|b1"@ {
        Some(Dtype::Bool)
    } else {
        None
    }
}

/// Reads the name of a type.
pub fn parse_npy_dtype(descr: &str) -> (r: Result<Dtype, LoadError>)
    ensures
        r == (match dtype_of(descr@) {
            Some(dtype) => Ok(dtype),
            None => Err(LoadError::UnsupportedDtype),
        }),
{
    let chars = chars_of(descr);
    let bare = string_of(trim(&chars, TrimSet::Quotes));
    let s = bare.as_str();
    if same_text(s, "<f2") || same_text(s, "=f2") {
        Ok(Dtype::Float16)
    } else if same_text(s, "<f4") || same_text(s, "=f4") {
        Ok(Dtype::Float32)
    } else if same_text(s, "<f8") || same_text(s, "=f8") {
        Ok(Dtype::Float64)
    } else if same_text(s, "<i2") || same_text(s, "=i2") {
        Ok(Dtype::Int16)
    } else if same_text(s, "<i4") || same_text(s, "=i4") {
        Ok(Dtype::Int32)
    } else if same_text(s, "<i8") || same_text(s, "=i8") {
        Ok(Dtype::Int64)
    } else if same_text(s, "<u1") || same_text(s, "=u1") || same_text(s, "|u1") {
        Ok(Dtype::Uint8)
    } else if same_text(s, "<u2") || same_text(s, "=u2") {
        Ok(Dtype::Uint16)
    } else if same_text(s, "<u4") || same_text(s, "=u4") {
        Ok(Dtype::Uint32)
    } else if same_text(s, "|b1") {
        Ok(Dtype::Bool)
    } else {
        Err(LoadError::UnsupportedDtype)
    }
}

/// The bytes of one item.
pub open spec fn item_size(dtype: Dtype) -> nat {
    match dtype {
        Dtype::Bool | Dtype::Uint8 | Dtype::Int8 => 1,
        Dtype::Uint16 | Dtype::Int16 | Dtype::Float16 | Dtype::Bfloat16 => 2,
        Dtype::Uint32 | Dtype::Int32 | Dtype::Float32 => 4,
        Dtype::Uint64 | Dtype::Int64 | Dtype::Float64 | Dtype::Complex64 => 8,
    }
}

/// The bytes of one item.
pub fn dtype_size(dtype: Dtype) -> (r: usize)
    ensures
        r == item_size(dtype),
{
    match dtype {
        Dtype::Bool | Dtype::Uint8 | Dtype::Int8 => 1,
        Dtype::Uint16 | Dtype::Int16 | Dtype::Float16 | Dtype::Bfloat16 => 2,
        Dtype::Uint32 | Dtype::Int32 | Dtype::Float32 => 4,
        Dtype::Uint64 | Dtype::Int64 | Dtype::Float64 | Dtype::Complex64 => 8,
    }
}

/// The numbers that the parts of a shape denote, blank parts left out; `None` where one is no
/// number.
pub open spec fn part_numbers(parts: Seq<Seq<char>>) -> Option<Seq<i32>>
    decreases parts.len(),
{
    if parts.len() == 0 {
        Some(seq![])
    } else {
        let bare = trimmed(parts.last(), TrimSet::White);
        match part_numbers(parts.drop_last()) {
            None => None,
            Some(before) => if bare.len() == 0 {
                Some(before)
            } else {
                match bounded_integer(bare, true, i32::MIN as int, i32::MAX as int) {
                    Some(v) => Some(before.push(v as i32)),
                    None => None,
                }
            },
        }
    }
}

/// The shape that a text such as `(3, 4)` or `(3,)` denotes. Nothing between the parentheses is
/// the shape of a single item.
pub open spec fn shape_of(text: Seq<char>) -> Option<Seq<i32>> {
    let s = trimmed(trimmed(text, TrimSet::White), TrimSet::Parentheses);
    if s.len() == 0 {
        Some(seq![])
    } else {
        part_numbers(split(s, ','))
    }
}

/// A part that is no number spoils every list of parts that starts with it.
proof fn lemma_bad_part(parts: Seq<Seq<char>>, n: int)
    requires
        0 <= n <= parts.len(),
        part_numbers(parts.take(n)) is None,
    ensures
        part_numbers(parts) is None,
    decreases parts.len() - n,
{
    if n < parts.len() {
        assert(parts.take(n + 1).drop_last() =~= parts.take(n));
        lemma_bad_part(parts, n + 1);
    } else {
        assert(parts.take(n) =~= parts);
    }
}

/// Reads a shape.
pub fn parse_npy_shape(shape_str: &str) -> (r: Result<Vec<i32>, LoadError>)
    ensures
        match r {
            Ok(shape) => shape_of(shape_str@) == Some(shape@),
            Err(e) => shape_of(shape_str@) is None && e == LoadError::BadShapeToken,
        },
{
    let chars = chars_of(shape_str);
    let s = trim(trim(&chars, TrimSet::White), TrimSet::Parentheses);
    let mut shape: Vec<i32> = Vec::new();
    if s.len() == 0 {
        assert(shape@ =~= seq![]);
        return Ok(shape);
    }
    let parts = split_at_char(s, ',');
    let ghost all = split(s@, ',');
    let mut i: usize = 0;
    assert(shape@ =~= seq![]);
    while i < parts.len()
        invariant
            i <= parts@.len(),
            s@ == trimmed(trimmed(shape_str@, TrimSet::White), TrimSet::Parentheses),
            s@.len() > 0,
            all == split(s@, ','),
            parts@.len() == all.len(),
            forall|j: int| 0 <= j < parts@.len() ==> (#[trigger] parts@[j])@ == all[j],
            part_numbers(all.take(i as int)) == Some(shape@),
        decreases parts@.len() - i,
    {
        let ghost now = all.take(i + 1);
        assert(now.drop_last() =~= all.take(i as int));
        assert(now.last() == parts@[i as int]@);
        let bare = trim(&parts[i], TrimSet::White);
        if bare.len() > 0 {
            match parse_i32(bare) {
                Some(v) => {
                    shape.push(v);
                },
                None => {
                    proof {
                        lemma_bad_part(all, i + 1);
                    }
                    return Err(LoadError::BadShapeToken);
                },
            }
        }
        i += 1;
    }
    assert(all.take(i as int) =~= all);
    Ok(shape)
}

/// A dimension as an unsigned word: a negative one stands for a huge number.
pub open spec fn dimension(d: i32) -> nat {
    if d >= 0 {
        d as nat
    } else {
        (0x1_0000_0000_0000_0000 + d) as nat
    }
}

/// The number of items of a shape.
pub open spec fn items_of(shape: Seq<i32>) -> nat
    decreases shape.len(),
{
    if shape.len() == 0 {
        1
    } else {
        items_of(shape.drop_last()) * dimension(shape.last())
    }
}

/// What stands behind `name` and a colon in a header, spaces left out.
pub open spec fn value_of(header: Seq<char>, single: Seq<char>, double: Seq<char>) -> Result<
    Option<Seq<char>>,
    LoadError,
> {
    let place = match first_occurrence(header, single) {
        Some(i) => Some(i),
        None => first_occurrence(header, double),
    };
    match place {
        None => Ok(None),
        Some(i) => {
            let rest = header.skip(i + 7int);
            let colon = first_position(rest, ':') as int;
            if colon == rest.len() {
                Err(LoadError::BadHeader)
            } else {
                Ok(Some(trimmed(rest.skip(colon + 1), TrimSet::White)))
            }
        },
    }
}

/// The name of the type in a header: what stands between the first character of its value and
/// the next one like it.
pub open spec fn header_descr(header: Seq<char>) -> Result<Seq<char>, LoadError> {
    match value_of(header, "'descr'"@, "\"descr\""@) {
        Err(e) => Err(e),
        Ok(None) => Err(LoadError::NoDescr),
        Ok(Some(val)) => if val.len() == 0 {
            Err(LoadError::BadDescr)
        } else {
            let body = val.skip(1);
            let end = first_position(body, val[0]) as int;
            if end == body.len() {
                Err(LoadError::BadDescr)
            } else {
                Ok(body.take(end))
            }
        },
    }
}

/// The shape in a header: its value up to the first closing parenthesis.
pub open spec fn header_shape(header: Seq<char>) -> Result<Seq<char>, LoadError> {
    match value_of(header, "'shape'"@, "\"shape\""@) {
        Err(e) => Err(e),
        Ok(None) => Err(LoadError::NoShape),
        Ok(Some(val)) => {
            let end = first_position(val, ')') as int;
            if end == val.len() {
                Err(LoadError::BadShape)
            } else {
                Ok(val.take(end + 1))
            }
        },
    }
}

/// Where the items of an array start.
pub open spec fn items_start(b: Seq<u8>) -> Option<int> {
    if b[6] >= 2 {
        if b.len() >= 12 && 12 + u32_at(b, 8) <= b.len() {
            Some(12 + u32_at(b, 8))
        } else {
            None
        }
    } else if 10 + u16_at(b, 8) <= b.len() {
        Some(10 + u16_at(b, 8))
    } else {
        None
    }
}

/// An array: the type of its items, its shape, and its bytes.
pub struct NpyArray {
    pub dtype: Dtype,
    pub shape: Vec<i32>,
    /// The items, and whatever follows them.
    pub data: Vec<u8>,
}

/// What bytes are as an array: the type, the shape and the bytes of its items.
pub open spec fn npy_array(b: Seq<u8>) -> Result<(Dtype, Seq<i32>, Seq<u8>), LoadError> {
    if !is_npy(b) {
        Err(LoadError::NotNpy)
    } else {
        match items_start(b) {
            None => Err(LoadError::TruncatedHeader),
            Some(at) => if !valid_utf8(b.subrange(10, at)) {
                Err(LoadError::HeaderNotUtf8)
            } else {
                let header = decode_utf8(b.subrange(10, at));
                match header_descr(header) {
                    Err(e) => Err(e),
                    Ok(descr) => match header_shape(header) {
                        Err(e) => Err(e),
                        Ok(text) => match dtype_of(descr) {
                            None => Err(LoadError::UnsupportedDtype),
                            Some(dtype) => match shape_of(text) {
                                None => Err(LoadError::BadShapeToken),
                                Some(shape) => if b.len() - at < items_of(shape) * item_size(
                                    dtype,
                                ) {
                                    Err(LoadError::DataTooShort)
                                } else {
                                    Ok((dtype, shape, b.skip(at)))
                                },
                            },
                        },
                    },
                }
            },
        }
    }
}

/// Finds the value behind a name in a header.
fn find_value<'a>(header: &'a [char], single: &str, double: &str) -> (r: Result<
    Option<&'a [char]>,
    LoadError,
>)
    requires
        single@.len() == 7,
        double@.len() == 7,
    ensures
        match r {
            Ok(Some(val)) => value_of(header@, single@, double@) == Ok::<_, LoadError>(
                Some(val@),
            ),
            Ok(None) => value_of(header@, single@, double@) == Ok::<Option<Seq<char>>, LoadError>(
                None,
            ),
            Err(e) => value_of(header@, single@, double@) == Err::<Option<Seq<char>>, _>(e),
        },
{
    let s = chars_of(single);
    let d = chars_of(double);
    let place = match find_text(header, &s) {
        Some(i) => Some(i),
        None => find_text(header, &d),
    };
    match place {
        None => Ok(None),
        Some(i) => {
            let total: usize = header.len();
            assert(i + 7 <= total);
            let rest = &header[i + 7..total];
            assert(rest@ =~= header@.skip(i + 7));
            let colon: usize = find_char(rest, ':');
            if colon == rest.len() {
                return Err(LoadError::BadHeader);
            }
            let after = &rest[colon + 1..rest.len()];
            assert(after@ =~= rest@.skip(colon + 1));
            Ok(Some(trim(after, TrimSet::White)))
        },
    }
}

/// Finds the name of the type in a header.
pub fn find_descr(header: &[char]) -> (r: Result<String, LoadError>)
    ensures
        match r {
            Ok(descr) => header_descr(header@) == Ok::<_, LoadError>(descr@),
            Err(e) => header_descr(header@) == Err::<Seq<char>, _>(e),
        },
{
    proof {
        reveal_strlit("'descr'");
        reveal_strlit("\"descr\"");
    }
    match find_value(header, "'descr'", "\"descr\"") {
        Err(e) => Err(e),
        Ok(None) => Err(LoadError::NoDescr),
        Ok(Some(val)) => {
            if val.len() == 0 {
                return Err(LoadError::BadDescr);
            }
            let body = &val[1..val.len()];
            assert(body@ =~= val@.skip(1));
            let end: usize = find_char(body, val[0]);
            if end == body.len() {
                return Err(LoadError::BadDescr);
            }
            assert(body@.subrange(0, end as int) =~= body@.take(end as int));
            Ok(string_of(&body[0..end]))
        },
    }
}

/// Finds the shape in a header.
pub fn find_shape(header: &[char]) -> (r: Result<String, LoadError>)
    ensures
        match r {
            Ok(text) => header_shape(header@) == Ok::<_, LoadError>(text@),
            Err(e) => header_shape(header@) == Err::<Seq<char>, _>(e),
        },
{
    proof {
        reveal_strlit("'shape'");
        reveal_strlit("\"shape\"");
    }
    match find_value(header, "'shape'", "\"shape\"") {
        Err(e) => Err(e),
        Ok(None) => Err(LoadError::NoShape),
        Ok(Some(val)) => {
            let end: usize = find_char(val, ')');
            if end == val.len() {
                return Err(LoadError::BadShape);
            }
            assert(val@.subrange(0, end + 1) =~= val@.take(end + 1));
            Ok(string_of(&val[0..end + 1]))
        },
    }
}

/// A factor that is not zero makes a product no smaller.
proof fn lemma_items_grow(shape: Seq<i32>, n: int)
    requires
        0 <= n <= shape.len(),
        forall|i: int| 0 <= i < shape.len() ==> #[trigger] shape[i] != 0,
    ensures
        items_of(shape.take(n)) <= items_of(shape),
        items_of(shape.take(n)) >= 1,
    decreases shape.len() - n,
{
    lemma_items_positive(shape.take(n));
    if n < shape.len() {
        let t = shape.take(n + 1);
        assert(t.drop_last() =~= shape.take(n));
        assert(t.last() == shape[n]);
        lemma_items_grow(shape, n + 1);
        let a = items_of(shape.take(n));
        let d = dimension(shape[n]);
        assert(a <= a * d) by (nonlinear_arith)
            requires
                d >= 1,
        ;
    } else {
        assert(shape.take(n) =~= shape);
    }
}

proof fn lemma_items_positive(shape: Seq<i32>)
    requires
        forall|i: int| 0 <= i < shape.len() ==> #[trigger] shape[i] != 0,
    ensures
        items_of(shape) >= 1,
    decreases shape.len(),
{
    if shape.len() > 0 {
        assert(shape[shape.len() - 1] != 0);
        lemma_items_positive(shape.drop_last());
        let a = items_of(shape.drop_last());
        let d = dimension(shape.last());
        assert(a * d >= 1) by (nonlinear_arith)
            requires
                a >= 1,
                d >= 1,
        ;
    }
}

proof fn lemma_items_zero(shape: Seq<i32>, i: int)
    requires
        0 <= i < shape.len(),
        shape[i] == 0,
    ensures
        items_of(shape) == 0,
    decreases shape.len(),
{
    let a = items_of(shape.drop_last());
    let d = dimension(shape.last());
    if i < shape.len() - 1 {
        lemma_items_zero(shape.drop_last(), i);
        assert(a * d == 0) by (nonlinear_arith)
            requires
                a == 0,
        ;
    } else {
        assert(a * d == 0) by (nonlinear_arith)
            requires
                d == 0,
        ;
    }
}

/// Whether `available` bytes hold the items of a shape.
fn enough(shape: &Vec<i32>, size: usize, available: usize) -> (r: bool)
    requires
        1 <= size <= 8,
    ensures
        r == (items_of(shape@) * size <= available),
{
    let mut k: usize = 0;
    while k < shape.len()
        invariant
            k <= shape@.len(),
            forall|j: int| 0 <= j < k ==> #[trigger] shape@[j] != 0,
        decreases shape@.len() - k,
    {
        if shape[k] == 0 {
            proof {
                lemma_items_zero(shape@, k as int);
                assert(items_of(shape@) * size == 0) by (nonlinear_arith)
                    requires
                        items_of(shape@) == 0,
                ;
            }
            return true;
        }
        k += 1;
    }
    let mut n: u128 = 1;
    let mut i: usize = 0;
    assert(items_of(shape@.take(0)) == 1);
    while i < shape.len()
        invariant
            i <= shape@.len(),
            1 <= size <= 8,
            forall|j: int| 0 <= j < shape@.len() ==> #[trigger] shape@[j] != 0,
            n == items_of(shape@.take(i as int)),
            1 <= n <= 0xffff_ffff_ffff_ffff,
            available <= 0xffff_ffff_ffff_ffff,
        decreases shape@.len() - i,
    {
        let ghost now = shape@.take(i + 1);
        assert(now.drop_last() =~= shape@.take(i as int));
        assert(now.last() == shape@[i as int]);
        let d: u128 = if shape[i] >= 0 {
            shape[i] as u128
        } else {
            (0x1_0000_0000_0000_0000i128 + shape[i] as i128) as u128
        };
        assert(d == dimension(shape@[i as int]));
        assert(n * d <= 0xffff_ffff_ffff_ffff * 0x1_0000_0000_0000_0000) by (nonlinear_arith)
            requires
                n <= 0xffff_ffff_ffff_ffff,
                d <= 0x1_0000_0000_0000_0000,
        ;
        n = n * d;
        if n > available as u128 {
            proof {
                lemma_items_grow(shape@, i + 1);
                let all = items_of(shape@) as int;
                assert(all * size > available) by (nonlinear_arith)
                    requires
                        all > available,
                        size >= 1,
                ;
            }
            return false;
        }
        proof {
            lemma_items_grow(shape@, i + 1);
        }
        i += 1;
    }
    assert(shape@.take(i as int) =~= shape@);
    assert(n * size <= 0xffff_ffff_ffff_ffff * 8) by (nonlinear_arith)
        requires
            n <= 0xffff_ffff_ffff_ffff,
            size <= 8,
    ;
    n * size as u128 <= available as u128
}

/// Reads an array.
pub fn parse_npy_bytes(bytes: &[u8]) -> (r: Result<NpyArray, LoadError>)
    ensures
        match r {
            Ok(a) => npy_array(bytes@) == Ok::<_, LoadError>((a.dtype, a.shape@, a.data@)),
            Err(e) => npy_array(bytes@) == Err::<(Dtype, Seq<i32>, Seq<u8>), _>(e),
        },
{
    if !starts_as_npy(bytes) {
        return Err(LoadError::NotNpy);
    }
    let at: usize = if bytes[6] >= 2 {
        if bytes.len() < 12 || read_u32(bytes, 8) as u64 > (bytes.len() - 12) as u64 {
            return Err(LoadError::TruncatedHeader);
        }
        12 + read_u32(bytes, 8) as usize
    } else {
        if read_u16(bytes, 8) as usize > bytes.len() - 10 {
            return Err(LoadError::TruncatedHeader);
        }
        10 + read_u16(bytes, 8) as usize
    };
    let text = match std::str::from_utf8(&bytes[10..at]) {
        Ok(text) => text,
        Err(_) => {
            return Err(LoadError::HeaderNotUtf8);
        },
    };
    let header = chars_of(text);
    let descr = match find_descr(&header) {
        Ok(descr) => descr,
        Err(e) => {
            return Err(e);
        },
    };
    let shape_text = match find_shape(&header) {
        Ok(shape_text) => shape_text,
        Err(e) => {
            return Err(e);
        },
    };
    let dtype = match parse_npy_dtype(descr.as_str()) {
        Ok(dtype) => dtype,
        Err(e) => {
            return Err(e);
        },
    };
    let shape = match parse_npy_shape(shape_text.as_str()) {
        Ok(shape) => shape,
        Err(e) => {
            return Err(e);
        },
    };
    let data = &bytes[at..bytes.len()];
    assert(data@ =~= bytes@.skip(at as int));
    if !enough(&shape, dtype_size(dtype), data.len()) {
        return Err(LoadError::DataTooShort);
    }
    Ok(NpyArray { dtype, shape, data: slice_to_vec(data) })
}

} // verus!
