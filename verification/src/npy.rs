//! Arrays of 32-bit floats in the `.npy` format.

use vstd::prelude::*;
use vstd::utf8::*;

use crate::bytes::{read_u16, read_u32, read_u32_list, u16_at, u32_at, u32_list};
use crate::text::{chars_of, contains_text, find_text};

verus! {

/// Why bytes are not the array that was asked for.
#[derive(Clone, Copy, Debug, PartialEq, Eq, Structural)]
pub enum NpyError {
    /// The bytes do not start as an array does.
    NotNpy,
    /// The bytes end within the length of a header of version 2.
    TruncatedVersion2,
    /// The format has a version other than 1 and 2.
    UnsupportedVersion(u8),
    /// The bytes end within the header.
    TruncatedHeader,
    /// The header is not UTF-8.
    HeaderNotUtf8,
    /// The items are not little-endian 32-bit floats.
    NotFloat32,
    /// The items are not in row order.
    NotRowOrder,
    /// The bytes end within an item.
    TruncatedItem,
    /// There are more or fewer items than were asked for.
    WrongCount {
        found: usize,
        expected: usize,
    },
}

/// The bytes that an array starts with.
pub open spec fn npy_magic() -> Seq<u8> {
    seq![0x93u8, 0x4e, 0x55, 0x4d, 0x50, 0x59]
}

/// Whether `b` starts as an array does and is long enough for the length of its header.
pub open spec fn is_npy(b: Seq<u8>) -> bool {
    b.len() >= 10 && b.take(6) == npy_magic()
}

/// Tells whether `b` starts as an array does.
pub fn starts_as_npy(b: &[u8]) -> (r: bool)
    ensures
        r == is_npy(b@),
{
    if b.len() < 10 {
        return false;
    }
    let r = b[0] == 0x93 && b[1] == 0x4e && b[2] == 0x55 && b[3] == 0x4d && b[4] == 0x50 && b[5]
        == 0x59;
    proof {
        let s = b@.take(6);
        if r {
            assert(s =~= npy_magic());
        } else {
            assert(s[0] == b@[0] && s[1] == b@[1] && s[2] == b@[2] && s[3] == b@[3] && s[4] == b@[4]
                && s[5] == b@[5]);
        }
    }
    r
}

/// Where the header starts and where it ends.
pub open spec fn header_range(b: Seq<u8>) -> Result<(int, int), NpyError> {
    if !is_npy(b) {
        Err(NpyError::NotNpy)
    } else if b[6] == 2 && b.len() < 12 {
        Err(NpyError::TruncatedVersion2)
    } else if b[6] != 1 && b[6] != 2 {
        Err(NpyError::UnsupportedVersion(b[6]))
    } else {
        let start: int = if b[6] == 1 {
            10
        } else {
            12
        };
        let end = start + if b[6] == 1 {
            u16_at(b, 8) as int
        } else {
            u32_at(b, 8) as int
        };
        if end > b.len() {
            Err(NpyError::TruncatedHeader)
        } else {
            Ok((start, end))
        }
    }
}

/// Whether a header names little-endian 32-bit floats.
pub open spec fn names_float32(header: Seq<char>) -> bool {
    contains_text(header, "'descr': '<f4'"@) || contains_text(header, "\"descr\": \"<f4\""@)
}

/// Whether a header names row order.
pub open spec fn names_row_order(header: Seq<char>) -> bool {
    contains_text(header, "'fortran_order': False"@) || contains_text(
        header,
        "\"fortran_order\": false"@,
    )
}

/// The bit patterns of the `count` floats of an array.
pub open spec fn float_bits(b: Seq<u8>, count: nat) -> Result<Seq<u32>, NpyError> {
    match header_range(b) {
        Err(e) => Err(e),
        Ok((start, end)) => {
            let text = b.subrange(start, end);
            let items = b.skip(end);
            if !valid_utf8(text) {
                Err(NpyError::HeaderNotUtf8)
            } else if !names_float32(decode_utf8(text)) {
                Err(NpyError::NotFloat32)
            } else if !names_row_order(decode_utf8(text)) {
                Err(NpyError::NotRowOrder)
            } else if items.len() % 4 != 0 {
                Err(NpyError::TruncatedItem)
            } else if items.len() / 4 != count {
                Err(
                    NpyError::WrongCount {
                        found: (items.len() / 4) as usize,
                        expected: count as usize,
                    },
                )
            } else {
                Ok(u32_list(items))
            }
        },
    }
}

/// The number of items of a shape.
pub open spec fn item_count(shape: Seq<usize>) -> nat
    decreases shape.len(),
{
    if shape.len() == 0 {
        1
    } else {
        item_count(shape.drop_last()) * shape.last() as nat
    }
}

/// Whether the items of a shape, and of each of its leading parts, can be counted.
pub open spec fn countable(shape: Seq<usize>) -> bool {
    forall|n: int| 0 <= n <= shape.len() ==> item_count(#[trigger] shape.take(n)) <= usize::MAX
}

/// Counts the items of a shape.
pub fn count_items(shape: &[usize]) -> (r: usize)
    requires
        countable(shape@),
    ensures
        r == item_count(shape@),
{
    let mut n: usize = 1;
    let mut i: usize = 0;
    assert(item_count(shape@.take(0)) == 1);
    while i < shape.len()
        invariant
            i <= shape@.len(),
            countable(shape@),
            n == item_count(shape@.take(i as int)),
        decreases shape@.len() - i,
    {
        assert(shape@.take(i + 1).drop_last() =~= shape@.take(i as int));
        assert(item_count(shape@.take(i + 1)) <= usize::MAX);
        n = n * shape[i];
        i += 1;
    }
    assert(shape@.take(i as int) =~= shape@);
    n
}

/// Finds the header of an array.
fn find_header(b: &[u8]) -> (r: Result<(usize, usize), NpyError>)
    ensures
        match r {
            Ok((start, end)) => header_range(b@) == Ok::<_, NpyError>((start as int, end as int))
                && start <= end <= b@.len(),
            Err(e) => header_range(b@) == Err::<(int, int), _>(e),
        },
{
    if !starts_as_npy(b) {
        return Err(NpyError::NotNpy);
    }
    let major: u8 = b[6];
    if major == 2 && b.len() < 12 {
        return Err(NpyError::TruncatedVersion2);
    }
    if major != 1 && major != 2 {
        return Err(NpyError::UnsupportedVersion(major));
    }
    let (start, len): (usize, u32) = if major == 1 {
        (10, read_u16(b, 8) as u32)
    } else {
        (12, read_u32(b, 8))
    };
    if len as u64 > (b.len() - start) as u64 {
        return Err(NpyError::TruncatedHeader);
    }
    Ok((start, start + len as usize))
}

/// Whether one of two texts stands in a header.
fn holds_either(header: &[char], a: &str, b: &str) -> (r: bool)
    ensures
        r == (contains_text(header@, a@) || contains_text(header@, b@)),
{
    let first = chars_of(a);
    let second = chars_of(b);
    find_text(header, &first).is_some() || find_text(header, &second).is_some()
}

/// Reads an array of 32-bit floats in row order, as bit patterns.
///
/// The header is held to the type and the order, and the items are counted.
pub fn load_npy_f32(bytes: &[u8], expected_shape: &[usize]) -> (r: Result<Vec<u32>, NpyError>)
    requires
        countable(expected_shape@),
    ensures
        match r {
            Ok(bits) => float_bits(bytes@, item_count(expected_shape@)) == Ok::<_, NpyError>(
                bits@,
            ),
            Err(e) => float_bits(bytes@, item_count(expected_shape@)) == Err::<Seq<u32>, _>(e),
        },
{
    let (start, end) = match find_header(bytes) {
        Ok(range) => range,
        Err(e) => {
            return Err(e);
        },
    };
    let text = match std::str::from_utf8(&bytes[start..end]) {
        Ok(text) => text,
        Err(_) => {
            return Err(NpyError::HeaderNotUtf8);
        },
    };
    let header = chars_of(text);
    if !holds_either(&header, "'descr': '<f4'", "\"descr\": \"<f4\"") {
        return Err(NpyError::NotFloat32);
    }
    if !holds_either(&header, "'fortran_order': False", "\"fortran_order\": false") {
        return Err(NpyError::NotRowOrder);
    }
    let items = &bytes[end..bytes.len()];
    assert(items@ =~= bytes@.skip(end as int));
    if items.len() % 4 != 0 {
        return Err(NpyError::TruncatedItem);
    }
    let expected: usize = count_items(expected_shape);
    if items.len() / 4 != expected {
        return Err(NpyError::WrongCount { found: items.len() / 4, expected });
    }
    Ok(read_u32_list(items))
}

} // verus!
