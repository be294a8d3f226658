//! Reading files: what is written reads back, and what is malformed is refused.

use vstd::prelude::*;
use vstd::utf8::*;

use crate::archive::{archive_arrays, array_name, entry_arrays, NamedArray};
use crate::bytes::{i16_list, i32_list, signed_16, signed_32, u16_at, u32_at, u32_list};
use crate::npy::{float_bits, item_count, npy_magic, NpyError};
use crate::npz::{
    dtype_of, header_descr, header_shape, item_size, items_of, npy_array, part_numbers, shape_of,
    value_of, Dtype, LoadError,
};
use crate::numbers::{bounded_integer, decimal, decimal_reads_back, is_digit};
use crate::text::{
    contains_text, first_occurrence, lemma_first_occurrence, trimmed, TrimSet,
};
use crate::vocabulary::{base64_bytes, line_entries, line_entry, VocabularyError};
use crate::wav::{
    holds_samples, scan_chunks, supported, wav_header, whole_frames, with_data, Samples, WavError,
    WavHeader,
};

verus! {

// Numbers in bytes.

/// Numbers are stored with their lowest byte first.
pub proof fn numbers_are_little_endian(b: Seq<u8>, i: int)
    ensures
        u16_at(b, i) == b[i] + 256 * b[i + 1],
        u32_at(b, i) == b[i] + 256 * b[i + 1] + 65536 * b[i + 2] + 16777216 * b[i + 3],
        u32_at(b, i) == u16_at(b, i) + 65536 * u16_at(b, i + 2),
{
}

/// The signed number with the bits of an unsigned one is that number, or less by as much as there
/// are numbers.
pub proof fn signed_numbers_wrap_around(v: u16, w: u32)
    ensures
        v <= 0x7fff ==> signed_16(v) == v,
        v > 0x7fff ==> signed_16(v) == v - 0x1_0000,
        w <= 0x7fff_ffff ==> signed_32(w) == w,
        w > 0x7fff_ffff ==> signed_32(w) == w - 0x1_0000_0000,
{
}

/// Whether the two bytes at `i` are those of `v`.
pub open spec fn spells_i16(b: Seq<u8>, i: int, v: i16) -> bool {
    b[i] + 256 * b[i + 1] == if v >= 0 {
        v as int
    } else {
        v + 0x1_0000
    }
}

/// Whether the four bytes at `i` are those of `v`.
pub open spec fn spells_u32(b: Seq<u8>, i: int, v: u32) -> bool {
    b[i] + 256 * b[i + 1] + 65536 * b[i + 2] + 16777216 * b[i + 3] == v
}

/// Whether the four bytes at `i` are those of `v`.
pub open spec fn spells_i32(b: Seq<u8>, i: int, v: i32) -> bool {
    b[i] + 256 * b[i + 1] + 65536 * b[i + 2] + 16777216 * b[i + 3] == if v >= 0 {
        v as int
    } else {
        v + 0x1_0000_0000
    }
}

/// Samples of 16 bits read back, all of them and in order; one byte behind them changes nothing.
pub proof fn samples_of_16_bits_read_back(b: Seq<u8>, samples: Seq<i16>)
    requires
        2 * samples.len() <= b.len() <= 2 * samples.len() + 1,
        forall|i: int| 0 <= i < samples.len() ==> spells_i16(b, 2 * i, #[trigger] samples[i]),
    ensures
        i16_list(b) == samples,
{
    assert(b.len() / 2 == samples.len());
    assert forall|i: int| 0 <= i < samples.len() implies i16_list(b)[i] == #[trigger] samples[i] by {
        assert(spells_i16(b, 2 * i, samples[i]));
    }
    assert(i16_list(b) =~= samples);
}

/// Numbers of 32 bits read back, all of them and in order; up to three bytes behind them change
/// nothing.
pub proof fn numbers_of_32_bits_read_back(b: Seq<u8>, words: Seq<u32>)
    requires
        4 * words.len() <= b.len() <= 4 * words.len() + 3,
        forall|i: int| 0 <= i < words.len() ==> spells_u32(b, 4 * i, #[trigger] words[i]),
    ensures
        u32_list(b) == words,
{
    assert(b.len() / 4 == words.len());
    assert forall|i: int| 0 <= i < words.len() implies u32_list(b)[i] == #[trigger] words[i] by {
        assert(spells_u32(b, 4 * i, words[i]));
    }
    assert(u32_list(b) =~= words);
}

/// So do signed ones.
pub proof fn samples_of_32_bits_read_back(b: Seq<u8>, samples: Seq<i32>)
    requires
        4 * samples.len() <= b.len() <= 4 * samples.len() + 3,
        forall|i: int| 0 <= i < samples.len() ==> spells_i32(b, 4 * i, #[trigger] samples[i]),
    ensures
        i32_list(b) == samples,
{
    assert(b.len() / 4 == samples.len());
    assert forall|i: int| 0 <= i < samples.len() implies i32_list(b)[i] == #[trigger] samples[i] by {
        assert(spells_i32(b, 4 * i, samples[i]));
    }
    assert(i32_list(b) =~= samples);
}

// WAV files.

/// Of a number of samples, as many are kept as make whole frames: a multiple of the channels, and
/// fewer than a frame are left out.
pub proof fn whole_frames_are_kept(n: int, channels: u16)
    requires
        n >= 0,
        channels > 0,
    ensures
        whole_frames(n, channels) % (channels as int) == 0,
        0 <= n - whole_frames(n, channels) < channels,
        0 <= whole_frames(n, channels),
        channels == 1 ==> whole_frames(n, channels) == n,
        channels == 2 ==> whole_frames(n, channels) == 2 * (n / 2),
{
    let c = channels as int;
    vstd::arithmetic::div_mod::lemma_fundamental_div_mod(n, c);
    vstd::arithmetic::div_mod::lemma_mod_bound(n, c);
    vstd::arithmetic::div_mod::lemma_mod_multiples_basic(n / c, c);
    assert((n / c) * c == c * (n / c)) by (nonlinear_arith);
    assert(c * (n / c) >= 0) by (nonlinear_arith)
        requires
            n >= 0,
            c > 0,
    ;
}

/// A file of 16-bit integers holds the samples that were written to it, as far as they make whole
/// frames.
pub proof fn wav_samples_of_16_bits_read_back(
    v: Vec<i16>,
    h: WavHeader,
    raw: Seq<u8>,
    samples: Seq<i16>,
)
    requires
        holds_samples(Samples::Pcm16(v), h, raw),
        h.channels > 0,
        2 * samples.len() <= raw.len() <= 2 * samples.len() + 1,
        forall|i: int| 0 <= i < samples.len() ==> spells_i16(raw, 2 * i, #[trigger] samples[i]),
    ensures
        v@ == samples.take(samples.len() - samples.len() as int % h.channels as int),
        h.audio_format == 1 && h.bits_per_sample == 16,
{
    samples_of_16_bits_read_back(raw, samples);
}

/// A file of 32-bit integers holds the samples that were written to it, as far as they make whole
/// frames.
pub proof fn wav_samples_of_32_bits_read_back(
    v: Vec<i32>,
    h: WavHeader,
    raw: Seq<u8>,
    samples: Seq<i32>,
)
    requires
        holds_samples(Samples::Pcm32(v), h, raw),
        h.channels > 0,
        4 * samples.len() <= raw.len() <= 4 * samples.len() + 3,
        forall|i: int| 0 <= i < samples.len() ==> spells_i32(raw, 4 * i, #[trigger] samples[i]),
    ensures
        v@ == samples.take(samples.len() - samples.len() as int % h.channels as int),
        h.audio_format == 1 && h.bits_per_sample == 32,
{
    samples_of_32_bits_read_back(raw, samples);
}

/// A file of floats holds the bit patterns that were written to it, as far as they make whole
/// frames.
pub proof fn wav_floats_read_back(v: Vec<u32>, h: WavHeader, raw: Seq<u8>, bits: Seq<u32>)
    requires
        holds_samples(Samples::Float32(v), h, raw),
        h.channels > 0,
        4 * bits.len() <= raw.len() <= 4 * bits.len() + 3,
        forall|i: int| 0 <= i < bits.len() ==> spells_u32(raw, 4 * i, #[trigger] bits[i]),
    ensures
        v@ == bits.take(bits.len() - bits.len() as int % h.channels as int),
        h.audio_format == 3 && h.bits_per_sample == 32,
{
    numbers_of_32_bits_read_back(raw, bits);
}

/// Three formats are read: integers of 16 and of 32 bits, and floats of 32 bits.
pub proof fn three_formats_are_read(h: WavHeader)
    ensures
        supported(h) <==> (h.audio_format, h.bits_per_sample) == (1u16, 16u16) || (
        h.audio_format,
        h.bits_per_sample,
    ) == (1u16, 32u16) || (h.audio_format, h.bits_per_sample) == (3u16, 32u16),
{
}

/// Bytes that do not start as a WAV file are refused, and so is a file without a format, without
/// data, without a channel or without a rate.
pub proof fn what_is_no_wav_file_is_refused(b: Seq<u8>)
    ensures
        b.len() < 12 ==> wav_header(b) == Err::<WavHeader, _>(WavError::TooShort),
        b.len() >= 12 && !(b[0] == 0x52 && b[1] == 0x49 && b[2] == 0x46 && b[3] == 0x46)
            ==> wav_header(b) == Err::<WavHeader, _>(WavError::NotWav),
        b.len() >= 12 && !(b[8] == 0x57 && b[9] == 0x41 && b[10] == 0x56 && b[11] == 0x45)
            ==> wav_header(b) == Err::<WavHeader, _>(WavError::NotWav),
        wav_header(b) matches Ok(h) ==> h.channels > 0 && h.sample_rate > 0 && h.data_start > 0,
{
    if b.len() >= 12 {
        let r = b.subrange(0, 4);
        let w = b.subrange(8, 12);
        assert(r[0] == b[0] && r[1] == b[1] && r[2] == b[2] && r[3] == b[3]);
        assert(w[0] == b[8] && w[1] == b[9] && w[2] == b[10] && w[3] == b[11]);
    }
}

/// Whether a chunk of that tag and size starts at `pos`.
pub open spec fn chunk_starts(b: Seq<u8>, pos: int, tag: Seq<u8>, size: int) -> bool {
    &&& 0 <= pos
    &&& pos + 8 <= b.len()
    &&& b.subrange(pos, pos + 4) == tag
    &&& b[pos + 4] + 256 * b[pos + 5] + 65536 * b[pos + 6] + 16777216 * b[pos + 7] == size
}

/// A data chunk that declares more than there is holds what there is; and a format chunk that is too
/// small or cut off is refused.
pub proof fn cut_off_chunks(b: Seq<u8>, pos: int, size: int, header: WavHeader)
    requires
        b.len() <= usize::MAX,
    ensures
        chunk_starts(b, pos, seq![0x64u8, 0x61, 0x74, 0x61], size) && pos + 8 + size >= b.len()
            ==> scan_chunks(b, pos, header) == Ok::<_, WavError>(
            WavHeader {
                data_start: (pos + 8) as usize,
                data_size: (b.len() - pos - 8) as usize,
                ..header
            },
        ),
        chunk_starts(b, pos, seq![0x66u8, 0x6d, 0x74, 0x20], size) && size < 16 ==> scan_chunks(
            b,
            pos,
            header,
        ) == Err::<WavHeader, _>(WavError::FormatTooSmall),
        chunk_starts(b, pos, seq![0x66u8, 0x6d, 0x74, 0x20], size) && size >= 16 && pos + 24
            > b.len() ==> scan_chunks(b, pos, header) == Err::<WavHeader, _>(
            WavError::FormatTruncated,
        ),
        pos + 8 > b.len() ==> scan_chunks(b, pos, header) == Ok::<_, WavError>(header),
{
    if chunk_starts(b, pos, seq![0x64u8, 0x61, 0x74, 0x61], size) {
        assert(seq![0x64u8, 0x61, 0x74, 0x61][0] != seq![0x66u8, 0x6d, 0x74, 0x20][0]);
        assert(u32_at(b, pos + 4) == size);
        let next = pos + 8 + size + size % 2;
        let found = with_data(header, b, pos + 8, size);
        if next >= b.len() {
            assert(scan_chunks(b, next, found) == Ok::<_, WavError>(found));
        }
    }
    if chunk_starts(b, pos, seq![0x66u8, 0x6d, 0x74, 0x20], size) {
        assert(u32_at(b, pos + 4) == size);
    }
}

/// Chunks are read one after the other: a format chunk and a data chunk put what they say in place of
/// what was said before, any other chunk says nothing, and the next chunk starts at an even distance.
pub proof fn chunks_are_read_one_after_the_other(
    b: Seq<u8>,
    pos: int,
    tag: Seq<u8>,
    size: int,
    header: WavHeader,
)
    requires
        b.len() <= usize::MAX,
        chunk_starts(b, pos, tag, size),
        tag == seq![0x66u8, 0x6d, 0x74, 0x20] ==> 16 <= size && pos + 24 <= b.len(),
    ensures
        ({
            let next = pos + 8 + size + size % 2;
            let at = pos + 8;
            &&& tag == seq![0x66u8, 0x6d, 0x74, 0x20] ==> scan_chunks(b, pos, header)
                == scan_chunks(
                b,
                next,
                WavHeader {
                    audio_format: (b[at] + 256 * b[at + 1]) as u16,
                    channels: (b[at + 2] + 256 * b[at + 3]) as u16,
                    sample_rate: (b[at + 4] + 256 * b[at + 5] + 65536 * b[at + 6] + 16777216 * b[at
                        + 7]) as u32,
                    bits_per_sample: (b[at + 14] + 256 * b[at + 15]) as u16,
                    data_start: header.data_start,
                    data_size: header.data_size,
                },
            )
            &&& tag == seq![0x64u8, 0x61, 0x74, 0x61] ==> scan_chunks(b, pos, header)
                == scan_chunks(
                b,
                next,
                WavHeader {
                    data_start: at as usize,
                    data_size: (if size <= b.len() - at {
                        size
                    } else {
                        b.len() - at
                    }) as usize,
                    ..header
                },
            )
            &&& tag != seq![0x66u8, 0x6d, 0x74, 0x20] && tag != seq![0x64u8, 0x61, 0x74, 0x61]
                ==> scan_chunks(b, pos, header) == scan_chunks(b, next, header)
        }),
{
    assert(u32_at(b, pos + 4) == size);
    assert(seq![0x64u8, 0x61, 0x74, 0x61][0] != seq![0x66u8, 0x6d, 0x74, 0x20][0]);
}

/// A file is read from its first chunk on, with nothing said before.
pub proof fn files_are_read_from_their_first_chunk(b: Seq<u8>)
    requires
        b.len() >= 12,
        b.subrange(0, 4) == seq![0x52u8, 0x49, 0x46, 0x46],
        b.subrange(8, 12) == seq![0x57u8, 0x41, 0x56, 0x45],
    ensures
        ({
            let scanned = scan_chunks(
                b,
                12,
                WavHeader {
                    audio_format: 0,
                    channels: 0,
                    sample_rate: 0,
                    bits_per_sample: 0,
                    data_start: 0,
                    data_size: 0,
                },
            );
            match scanned {
                Err(e) => wav_header(b) == Err::<WavHeader, _>(e),
                Ok(h) => {
                    &&& h.channels == 0 || h.data_start == 0 ==> wav_header(b) == Err::<
                        WavHeader,
                        _,
                    >(WavError::MissingChunk)
                    &&& h.channels > 0 && h.data_start > 0 && h.sample_rate == 0 ==> wav_header(b)
                        == Err::<WavHeader, _>(WavError::ZeroSampleRate)
                    &&& h.channels > 0 && h.data_start > 0 && h.sample_rate > 0 ==> wav_header(b)
                        == Ok::<_, WavError>(h)
                },
            }
        }),
{
}

// Arrays.

/// An array file of version 1: the magic, the version, the length of the header, the header and the
/// items.
pub open spec fn npy_file(minor: u8, header: Seq<u8>, items: Seq<u8>) -> Seq<u8> {
    seq![
        0x93u8,
        0x4e,
        0x55,
        0x4d,
        0x50,
        0x59,
        1,
        minor,
        (header.len() % 256) as u8,
        (header.len() / 256) as u8,
    ] + header + items
}

/// Where the parts of an array file stand.
proof fn lemma_npy_file(minor: u8, header: Seq<u8>, items: Seq<u8>)
    requires
        header.len() < 65536,
    ensures
        ({
            let b = npy_file(minor, header, items);
            &&& b.len() >= 10
            &&& b.take(6) == npy_magic()
            &&& b[6] == 1
            &&& u16_at(b, 8) == header.len()
            &&& b.subrange(10, 10 + header.len() as int) == header
            &&& b.skip(10 + header.len() as int) == items
            &&& b.len() == 10 + header.len() + items.len()
        }),
{
    let b = npy_file(minor, header, items);
    let n = header.len() as int;
    assert(b.take(6) =~= npy_magic());
    assert(b[8] == (n % 256) as u8 && b[9] == (n / 256) as u8);
    assert(n == n % 256 + 256 * (n / 256));
    assert(b.subrange(10, 10 + n) =~= header);
    assert(b.skip(10 + n) =~= items);
}

/// Whether `part` stands somewhere in `s`.
pub open spec fn has_part(s: Seq<char>, part: Seq<char>) -> bool {
    exists|i: int|
        0 <= i <= s.len() - part.len() && #[trigger] s.subrange(i, i + part.len()) == part
}

/// To look for a text finds it wherever it stands, and nothing else.
pub proof fn looking_finds_what_is_there(s: Seq<char>, part: Seq<char>)
    ensures
        contains_text(s, part) <==> has_part(s, part),
        first_occurrence(s, part) matches Some(i) ==> i + part.len() <= s.len() && s.subrange(
            i as int,
            (i + part.len()) as int,
        ) == part && forall|j: int| 0 <= j < i ==> #[trigger] s.subrange(j, j + part.len()) != part,
{
    lemma_first_occurrence(s, part);
}

/// A matrix file is read only if its header names 32-bit little-endian floats in row order and it
/// holds exactly as many as are asked for; they are then the items, in order. Whatever is otherwise
/// is refused, and says what it is.
pub proof fn matrix_files_read_back(
    minor: u8,
    text: Seq<char>,
    items: Seq<u8>,
    bits: Seq<u32>,
    count: nat,
)
    requires
        encode_utf8(text).len() < 65536,
        items.len() == 4 * bits.len(),
        forall|i: int| 0 <= i < bits.len() ==> spells_u32(items, 4 * i, #[trigger] bits[i]),
    ensures
        ({
            let b = npy_file(minor, encode_utf8(text), items);
            let floats = has_part(text, "'descr': '<f4'"@) || has_part(
                text,
                "\"descr\": \"<f4\""@,
            );
            let rows = has_part(text, "'fortran_order': False"@) || has_part(
                text,
                "\"fortran_order\": false"@,
            );
            &&& floats && rows && count == bits.len() ==> float_bits(b, count) == Ok::<_, NpyError>(
                bits,
            )
            &&& !floats ==> float_bits(b, count) == Err::<Seq<u32>, _>(NpyError::NotFloat32)
            &&& floats && !rows ==> float_bits(b, count) == Err::<Seq<u32>, _>(
                NpyError::NotRowOrder,
            )
            &&& floats && rows && count != bits.len() ==> float_bits(b, count) == Err::<
                Seq<u32>,
                _,
            >(NpyError::WrongCount { found: bits.len() as usize, expected: count as usize })
        }),
{
    let h = encode_utf8(text);
    lemma_npy_file(minor, h, items);
    encode_utf8_valid_utf8(text);
    encode_utf8_decode_utf8(text);
    numbers_of_32_bits_read_back(items, bits);
    looking_finds_what_is_there(text, "'descr': '<f4'"@);
    looking_finds_what_is_there(text, "\"descr\": \"<f4\""@);
    looking_finds_what_is_there(text, "'fortran_order': False"@);
    looking_finds_what_is_there(text, "\"fortran_order\": false"@);
    assert(items.len() / 4 == bits.len() && items.len() % 4 == 0);
}

/// A matrix file of version 2, whose header has a length of four bytes, reads back too.
pub proof fn matrix_files_of_version_2_read_back(
    minor: u8,
    text: Seq<char>,
    items: Seq<u8>,
    bits: Seq<u32>,
)
    requires
        encode_utf8(text).len() < 65536,
        items.len() == 4 * bits.len(),
        forall|i: int| 0 <= i < bits.len() ==> spells_u32(items, 4 * i, #[trigger] bits[i]),
        has_part(text, "'descr': '<f4'"@) || has_part(text, "\"descr\": \"<f4\""@),
        has_part(text, "'fortran_order': False"@) || has_part(text, "\"fortran_order\": false"@),
    ensures
        float_bits(npy_file_2(2, minor, encode_utf8(text), items), bits.len()) == Ok::<_, NpyError>(
            bits,
        ),
{
    let h = encode_utf8(text);
    lemma_npy_file_2(2, minor, h, items);
    encode_utf8_valid_utf8(text);
    encode_utf8_decode_utf8(text);
    numbers_of_32_bits_read_back(items, bits);
    looking_finds_what_is_there(text, "'descr': '<f4'"@);
    looking_finds_what_is_there(text, "\"descr\": \"<f4\""@);
    looking_finds_what_is_there(text, "'fortran_order': False"@);
    looking_finds_what_is_there(text, "\"fortran_order\": false"@);
    assert(items.len() / 4 == bits.len() && items.len() % 4 == 0);
}

/// An array file whose header has a length of four bytes, as from version 2 on.
pub open spec fn npy_file_2(major: u8, minor: u8, header: Seq<u8>, items: Seq<u8>) -> Seq<u8> {
    seq![
        0x93u8,
        0x4e,
        0x55,
        0x4d,
        0x50,
        0x59,
        major,
        minor,
        (header.len() % 256) as u8,
        (header.len() / 256) as u8,
        0,
        0,
    ] + header + items
}

proof fn lemma_npy_file_2(major: u8, minor: u8, header: Seq<u8>, items: Seq<u8>)
    requires
        header.len() < 65536,
    ensures
        ({
            let b = npy_file_2(major, minor, header, items);
            &&& b.len() >= 12
            &&& b.take(6) == npy_magic()
            &&& b[6] == major
            &&& u32_at(b, 8) == header.len()
            &&& b.subrange(12, 12 + header.len() as int) == header
            &&& b.subrange(10, 12 + header.len() as int) == seq![0u8, 0u8] + header
            &&& b.skip(12 + header.len() as int) == items
            &&& b.len() == 12 + header.len() + items.len()
        }),
{
    let b = npy_file_2(major, minor, header, items);
    let n = header.len() as int;
    assert(b.take(6) =~= npy_magic());
    assert(b[8] == (n % 256) as u8 && b[9] == (n / 256) as u8 && b[10] == 0 && b[11] == 0);
    assert(n == n % 256 + 256 * (n / 256));
    assert(b.subrange(12, 12 + n) =~= header);
    assert(b.subrange(10, 12 + n) =~= seq![0u8, 0u8] + header);
    assert(b.skip(12 + n) =~= items);
}

/// Bytes that do not start with the magic of an array file are none, and other versions than 1 and 2
/// are refused.
pub proof fn what_is_no_array_file_is_refused(b: Seq<u8>, count: nat)
    ensures
        b.len() < 10 || b.take(6) != seq![0x93u8, 0x4e, 0x55, 0x4d, 0x50, 0x59] ==> float_bits(
            b,
            count,
        ) == Err::<Seq<u32>, _>(NpyError::NotNpy) && npy_array(b) == Err::<
            (Dtype, Seq<i32>, Seq<u8>),
            _,
        >(LoadError::NotNpy),
        b.len() >= 12 && b.take(6) == seq![0x93u8, 0x4e, 0x55, 0x4d, 0x50, 0x59] && b[6] != 1 && b[6]
            != 2 ==> float_bits(b, count) == Err::<Seq<u32>, _>(
            NpyError::UnsupportedVersion(b[6]),
        ),
{
}

/// Bytes behind the last whole item are refused, and so is a header that is cut off.
pub proof fn cut_off_matrix_files_are_refused(minor: u8, text: Seq<char>, items: Seq<u8>, count: nat)
    requires
        encode_utf8(text).len() < 65536,
    ensures
        items.len() % 4 != 0 ==> float_bits(npy_file(minor, encode_utf8(text), items), count) is Err,
        has_part(text, "'descr': '<f4'"@) && has_part(text, "'fortran_order': False"@)
            && items.len() % 4 != 0 ==> float_bits(
            npy_file(minor, encode_utf8(text), items),
            count,
        ) == Err::<Seq<u32>, _>(NpyError::TruncatedItem),
        forall|b: Seq<u8>|
            b.len() >= 10 && b[6] == 1 && #[trigger] b.len() < 10 + u16_at(b, 8) ==> float_bits(
                b,
                count,
            ) is Err,
{
    lemma_npy_file(minor, encode_utf8(text), items);
    encode_utf8_valid_utf8(text);
    encode_utf8_decode_utf8(text);
    looking_finds_what_is_there(text, "'descr': '<f4'"@);
    looking_finds_what_is_there(text, "'fortran_order': False"@);
}

/// The number of items of a shape is the product of its dimensions; a negative one counts as the
/// 64-bit word with its bits.
pub proof fn items_multiply(shape: Seq<usize>, n: usize, dims: Seq<i32>, d: i32)
    ensures
        item_count(Seq::<usize>::empty()) == 1,
        item_count(shape.push(n)) == item_count(shape) * n,
        items_of(Seq::<i32>::empty()) == 1,
        d >= 0 ==> items_of(dims.push(d)) == items_of(dims) * d,
        d < 0 ==> items_of(dims.push(d)) == items_of(dims) * (0x1_0000_0000_0000_0000 + d),
{
    assert(shape.push(n).drop_last() =~= shape);
    assert(dims.push(d).drop_last() =~= dims);
}

/// The name of a type is its byte order, its kind and its size in bytes.
pub proof fn type_names_tell_kind_and_size(name: Seq<char>)
    requires
        dtype_of(name) is Some,
    ensures
        ({
            let s = trimmed(name, TrimSet::Quotes);
            let t = dtype_of(name)->0;
            &&& s.len() == 3
            &&& s[0] == '<' || s[0] == '=' || s[0] == '|'
            &&& s[0] == '|' ==> s[2] == '1'
            &&& s[1] == 'b' ==> s[0] == '|'
            &&& item_size(t) == s[2] as u32 - '0' as u32
            &&& s[1] == 'f' <==> (t == Dtype::Float16 || t == Dtype::Float32 || t == Dtype::Float64)
            &&& s[1] == 'i' <==> (t == Dtype::Int16 || t == Dtype::Int32 || t == Dtype::Int64)
            &&& s[1] == 'u' <==> (t == Dtype::Uint8 || t == Dtype::Uint16 || t == Dtype::Uint32)
            &&& s[1] == 'b' <==> t == Dtype::Bool
        }),
{
    reveal_strlit("<f2");
    reveal_strlit("=f2");
    reveal_strlit("<f4");
    reveal_strlit("=f4");
    reveal_strlit("<f8");
    reveal_strlit("=f8");
    reveal_strlit("<i2");
    reveal_strlit("=i2");
    reveal_strlit("<i4");
    reveal_strlit("=i4");
    reveal_strlit("<i8");
    reveal_strlit("=i8");
    reveal_strlit("<u1");
    reveal_strlit("=u1");
    reveal_strlit("|u1");
    reveal_strlit("<u2");
    reveal_strlit("=u2");
    reveal_strlit("<u4");
    reveal_strlit("=u4");
    reveal_strlit("|b1");
}

/// Floats and integers of 2, 4 and 8 bytes, unsigned integers of 1, 2 and 4, and truth values are
/// known, in little-endian or in the machine's own order, or, of one byte, in none.
pub proof fn known_types(order: char, kind: char, size: char)
    requires
        order == '<' || order == '=',
        ((kind == 'f' || kind == 'i') && (size == '2' || size == '4' || size == '8')) || (kind
            == 'u' && (size == '1' || size == '2' || size == '4')),
    ensures
        dtype_of(seq![order, kind, size]) is Some,
        dtype_of(seq!['|', 'u', '1']) == Some(Dtype::Uint8),
        dtype_of(seq!['|', 'b', '1']) == Some(Dtype::Bool),
{
    let e = Seq::<char>::empty();
    let s = seq![order, kind, size];
    crate::laws::text::trimming_gives_back_the_middle(e, s, e, TrimSet::Quotes);
    assert(e + s + e =~= s);
    let u = seq!['|', 'u', '1'];
    crate::laws::text::trimming_gives_back_the_middle(e, u, e, TrimSet::Quotes);
    assert(e + u + e =~= u);
    let b = seq!['|', 'b', '1'];
    crate::laws::text::trimming_gives_back_the_middle(e, b, e, TrimSet::Quotes);
    assert(e + b + e =~= b);
    reveal_strlit("<f2");
    assert("<f2"@ =~= seq!['<', 'f', '2']);
    reveal_strlit("=f2");
    assert("=f2"@ =~= seq!['=', 'f', '2']);
    reveal_strlit("<f4");
    assert("<f4"@ =~= seq!['<', 'f', '4']);
    reveal_strlit("=f4");
    assert("=f4"@ =~= seq!['=', 'f', '4']);
    reveal_strlit("<f8");
    assert("<f8"@ =~= seq!['<', 'f', '8']);
    reveal_strlit("=f8");
    assert("=f8"@ =~= seq!['=', 'f', '8']);
    reveal_strlit("<i2");
    assert("<i2"@ =~= seq!['<', 'i', '2']);
    reveal_strlit("=i2");
    assert("=i2"@ =~= seq!['=', 'i', '2']);
    reveal_strlit("<i4");
    assert("<i4"@ =~= seq!['<', 'i', '4']);
    reveal_strlit("=i4");
    assert("=i4"@ =~= seq!['=', 'i', '4']);
    reveal_strlit("<i8");
    assert("<i8"@ =~= seq!['<', 'i', '8']);
    reveal_strlit("=i8");
    assert("=i8"@ =~= seq!['=', 'i', '8']);
    reveal_strlit("<u1");
    assert("<u1"@ =~= seq!['<', 'u', '1']);
    reveal_strlit("=u1");
    assert("=u1"@ =~= seq!['=', 'u', '1']);
    reveal_strlit("|u1");
    assert("|u1"@ =~= seq!['|', 'u', '1']);
    reveal_strlit("<u2");
    assert("<u2"@ =~= seq!['<', 'u', '2']);
    reveal_strlit("=u2");
    assert("=u2"@ =~= seq!['=', 'u', '2']);
    reveal_strlit("<u4");
    assert("<u4"@ =~= seq!['<', 'u', '4']);
    reveal_strlit("=u4");
    assert("=u4"@ =~= seq!['=', 'u', '4']);
    reveal_strlit("|b1");
    assert("|b1"@ =~= seq!['|', 'b', '1']);
}

/// The parts of a shape are read one by one, in order; blank ones are left out, and one that is no
/// number spoils the shape.
pub proof fn shapes_are_read_part_by_part(parts: Seq<Seq<char>>, part: Seq<char>)
    ensures
        part_numbers(Seq::<Seq<char>>::empty()) == Some(Seq::<i32>::empty()),
        part_numbers(parts) is None ==> part_numbers(parts.push(part)) is None,
        part_numbers(parts) is Some && trimmed(part, TrimSet::White).len() == 0 ==> part_numbers(
            parts.push(part),
        ) == part_numbers(parts),
        part_numbers(parts) is Some && trimmed(part, TrimSet::White).len() > 0 ==> (match bounded_integer(
            trimmed(part, TrimSet::White),
            true,
            i32::MIN as int,
            i32::MAX as int,
        ) {
            Some(v) => part_numbers(parts.push(part)) == Some(part_numbers(parts)->0.push(v as i32)),
            None => part_numbers(parts.push(part)) is None,
        }),
{
    assert(parts.push(part).drop_last() =~= parts);
}

/// A shape of one dimension reads back, and empty parentheses are the shape of a single item.
pub proof fn shapes_of_one_dimension_read_back(n: nat)
    requires
        n <= i32::MAX,
    ensures
        shape_of(seq!['('] + decimal(n) + seq![',', ')']) == Some(seq![n as i32]),
        shape_of(seq!['(', ')']) == Some(Seq::<i32>::empty()),
{
    let d = decimal(n);
    decimal_reads_back(n);
    let e = Seq::<char>::empty();
    let text = seq!['('] + d + seq![',', ')'];
    assert(is_digit(d[0]) && is_digit(d.last()));
    assert(text.len() > 0 && text[0] == '(' && text.last() == ')');
    crate::laws::text::trimming_gives_back_the_middle(e, text, e, TrimSet::White);
    assert(e + text + e =~= text);
    let body = d + seq![','];
    crate::laws::text::trimming_gives_back_the_middle(
        seq!['('],
        body,
        seq![')'],
        TrimSet::Parentheses,
    );
    assert(seq!['('] + body + seq![')'] =~= text);
    assert(!d.contains(',')) by {
        if d.contains(',') {
            let i = choose|i: int| 0 <= i < d.len() && d[i] == ',';
            assert(is_digit(d[i]));
        }
    }
    crate::laws::text::splitting_stops_at_separators(d, ',', e);
    crate::laws::text::splitting_stops_at_separators(e, ',', e);
    assert(d + seq![','] + e =~= body);
    let parts = seq![d] + seq![e];
    assert(crate::text::split(body, ',') == parts);
    crate::laws::text::trimming_gives_back_the_middle(e, d, e, TrimSet::White);
    assert(e + d + e =~= d);
    crate::laws::text::trimming_gives_back_the_middle(e, e, e, TrimSet::White);
    assert(e + e + e =~= e);
    shapes_are_read_part_by_part(Seq::empty(), d);
    assert(Seq::<Seq<char>>::empty().push(d) =~= seq![d]);
    assert(Seq::<i32>::empty().push(n as i32) =~= seq![n as i32]);
    shapes_are_read_part_by_part(seq![d], e);
    assert(seq![d].push(e) =~= parts);
    let none = seq!['(', ')'];
    crate::laws::text::trimming_gives_back_the_middle(e, none, e, TrimSet::White);
    assert(e + none + e =~= none);
    crate::laws::text::trimming_gives_back_the_middle(
        seq!['('],
        e,
        seq![')'],
        TrimSet::Parentheses,
    );
    assert(seq!['('] + e + seq![')'] =~= none);
}

/// A shape stands between parentheses, with commas between its parts.
pub proof fn shapes_stand_between_parentheses(s: Seq<char>)
    requires
        s.len() > 0,
        !TrimSet::Parentheses.holds(s[0]),
        !TrimSet::Parentheses.holds(s.last()),
    ensures
        shape_of(seq!['('] + s + seq![')']) == part_numbers(crate::text::split(s, ',')),
{
    let e = Seq::<char>::empty();
    let text = seq!['('] + s + seq![')'];
    assert(text[0] == '(' && text.last() == ')');
    crate::laws::text::trimming_gives_back_the_middle(e, text, e, TrimSet::White);
    assert(e + text + e =~= text);
    crate::laws::text::trimming_gives_back_the_middle(
        seq!['('],
        s,
        seq![')'],
        TrimSet::Parentheses,
    );
}

/// Whether `key` first stands at `i` in a header.
pub open spec fn key_at(header: Seq<char>, key: Seq<char>, i: int) -> bool {
    &&& 0 <= i
    &&& i + key.len() <= header.len()
    &&& header.subrange(i, i + key.len()) == key
    &&& forall|j: int| 0 <= j < i ==> #[trigger] header.subrange(j, j + key.len()) != key
}

proof fn lemma_key_at(header: Seq<char>, key: Seq<char>, i: int)
    requires
        key_at(header, key, i),
    ensures
        first_occurrence(header, key) == Some(i as nat),
{
    lemma_first_occurrence(header, key);
    match first_occurrence(header, key) {
        Some(k) => {
            if k < i {
                assert(header.subrange(k as int, (k + key.len()) as int) != key);
            }
        },
        None => {
            assert(header.subrange(i, i + key.len()) != key);
        },
    }
}

/// What stands behind a key, a colon and white space, down to a last character that is no white
/// space.
proof fn lemma_value_behind(
    header: Seq<char>,
    single: Seq<char>,
    double: Seq<char>,
    i: int,
    gap: Seq<char>,
    white: Seq<char>,
    kept: Seq<char>,
    post: Seq<char>,
) -> (n: int)
    requires
        key_at(header, single, i) || (!contains_text(header, single) && key_at(header, double, i)),
        single.len() == 7,
        double.len() == 7,
        header.skip(i + 7) == gap + seq![':'] + white + kept + post,
        !gap.contains(':'),
        crate::laws::text::all_in(white, TrimSet::White),
        kept.len() > 0,
        !TrimSet::White.holds(kept[0]),
        !TrimSet::White.holds(kept.last()),
    ensures
        0 <= n <= post.len(),
        value_of(header, single, double) == Ok::<_, LoadError>(Some(kept + post.take(n))),
{
    if key_at(header, single, i) {
        lemma_key_at(header, single, i);
    } else {
        lemma_key_at(header, double, i);
    }
    let rest = header.skip(i + 7);
    let behind = white + kept + post;
    assert(rest =~= gap + seq![':'] + behind);
    crate::text::lemma_first_position(rest, ':');
    let p = crate::text::first_position(rest, ':') as int;
    assert(rest[gap.len() as int] == ':');
    if p < gap.len() {
        assert(gap[p] == rest[p]);
    }
    assert(rest.skip(p + 1) =~= behind);
    let r = crate::laws::text::trimming_cuts_off_the_ends(behind, TrimSet::White);
    let (a, b) = (white.len() as int, (white.len() + kept.len()) as int);
    assert(behind[a] == kept[0] && behind[b - 1] == kept.last());
    if r.0 == r.1 {
        assert(TrimSet::White.holds(behind[a]));
    }
    if r.0 > a {
        assert(behind.take(r.0)[a] == behind[a]);
    }
    if r.0 < a {
        assert(white[r.0] == behind[r.0]);
    }
    if r.1 < b {
        assert(behind.skip(r.1)[b - 1 - r.1] == behind[b - 1]);
    }
    assert(behind.subrange(r.0, r.1) =~= kept + post.take(r.1 - b));
    r.1 - b
}

/// The type that a header names is what stands between quotes behind the key `descr`, in quotes of
/// either kind, and a colon.
pub proof fn headers_name_their_type(
    header: Seq<char>,
    i: int,
    gap: Seq<char>,
    white: Seq<char>,
    quote: char,
    descr: Seq<char>,
    post: Seq<char>,
)
    requires
        key_at(header, "'descr'"@, i) || (!contains_text(header, "'descr'"@) && key_at(
            header,
            "\"descr\""@,
            i,
        )),
        header.skip(i + 7) == gap + seq![':'] + white + (seq![quote] + descr + seq![quote]) + post,
        !gap.contains(':'),
        crate::laws::text::all_in(white, TrimSet::White),
        !TrimSet::White.holds(quote),
        !descr.contains(quote),
    ensures
        header_descr(header) == Ok::<_, LoadError>(descr),
{
    reveal_strlit("'descr'");
    reveal_strlit("\"descr\"");
    let kept = seq![quote] + descr + seq![quote];
    assert(kept.last() == quote);
    let n = lemma_value_behind(
        header,
        "'descr'"@,
        "\"descr\""@,
        i,
        gap,
        white,
        kept,
        post,
    );
    let body = (kept + post.take(n)).skip(1);
    assert(body =~= descr + seq![quote] + post.take(n));
    crate::text::lemma_first_position(body, quote);
    let p = crate::text::first_position(body, quote) as int;
    assert(body[descr.len() as int] == quote);
    if p < descr.len() {
        assert(descr[p] == body[p]);
    }
    assert(body.take(p) =~= descr);
}

/// The shape that a header names is what stands behind the key `shape` and a colon, up to the first
/// closing parenthesis.
pub proof fn headers_name_their_shape(
    header: Seq<char>,
    i: int,
    gap: Seq<char>,
    white: Seq<char>,
    shape: Seq<char>,
    post: Seq<char>,
)
    requires
        key_at(header, "'shape'"@, i) || (!contains_text(header, "'shape'"@) && key_at(
            header,
            "\"shape\""@,
            i,
        )),
        header.skip(i + 7) == gap + seq![':'] + white + (shape + seq![')']) + post,
        !gap.contains(':'),
        crate::laws::text::all_in(white, TrimSet::White),
        shape.len() > 0,
        !TrimSet::White.holds(shape[0]),
        !shape.contains(')'),
    ensures
        header_shape(header) == Ok::<_, LoadError>(shape + seq![')']),
{
    reveal_strlit("'shape'");
    reveal_strlit("\"shape\"");
    let kept = shape + seq![')'];
    assert(kept[0] == shape[0] && kept.last() == ')');
    let n = lemma_value_behind(
        header,
        "'shape'"@,
        "\"shape\""@,
        i,
        gap,
        white,
        kept,
        post,
    );
    let val = kept + post.take(n);
    crate::text::lemma_first_position(val, ')');
    let p = crate::text::first_position(val, ')') as int;
    assert(val[shape.len() as int] == ')');
    if p < shape.len() {
        assert(shape[p] == val[p]);
    }
    assert(val.take(p + 1) =~= kept);
}

/// A header without one of the keys is refused.
pub proof fn headers_without_a_key_are_refused(header: Seq<char>)
    ensures
        !has_part(header, "'descr'"@) && !has_part(header, "\"descr\""@) ==> header_descr(header)
            == Err::<Seq<char>, _>(LoadError::NoDescr),
        !has_part(header, "'shape'"@) && !has_part(header, "\"shape\""@) ==> header_shape(header)
            == Err::<Seq<char>, _>(LoadError::NoShape),
{
    looking_finds_what_is_there(header, "'descr'"@);
    looking_finds_what_is_there(header, "\"descr\""@);
    looking_finds_what_is_there(header, "'shape'"@);
    looking_finds_what_is_there(header, "\"shape\""@);
}

/// An array file of a version from 2 on is read likewise, from the length of its header on.
pub proof fn array_files_of_later_versions_read_back(
    major: u8,
    minor: u8,
    text: Seq<char>,
    items: Seq<u8>,
    descr: Seq<char>,
    shape_text: Seq<char>,
    dtype: Dtype,
    shape: Seq<i32>,
)
    requires
        major >= 2,
        encode_utf8(text).len() < 65536,
        header_descr(seq!['\0', '\0'] + text) == Ok::<_, LoadError>(descr),
        header_shape(seq!['\0', '\0'] + text) == Ok::<_, LoadError>(shape_text),
        dtype_of(descr) == Some(dtype),
        shape_of(shape_text) == Some(shape),
        items.len() >= items_of(shape) * item_size(dtype),
    ensures
        npy_array(npy_file_2(major, minor, encode_utf8(text), items)) == Ok::<_, LoadError>(
            (dtype, shape, items),
        ),
{
    lemma_npy_file_2(major, minor, encode_utf8(text), items);
    let zeros = seq!['\0', '\0'];
    let all = zeros + text;
    crate::text::utf8_of_concatenation(zeros, text);
    assert(encode_utf8(zeros) =~= seq![0u8, 0u8]) by {
        reveal_with_fuel(encode_utf8, 3);
        assert(leading_byte_width_1(0u32) == 0) by (bit_vector);
        assert(zeros.drop_first() =~= seq!['\0']);
        assert(seq!['\0'].drop_first() =~= Seq::<char>::empty());
    }
    encode_utf8_valid_utf8(all);
    encode_utf8_decode_utf8(all);
}

/// An array file is read as the type and the shape that its header names, and as the bytes behind the
/// header, all of them; it is refused where these are fewer than the items take.
pub proof fn array_files_read_back(
    minor: u8,
    text: Seq<char>,
    items: Seq<u8>,
    descr: Seq<char>,
    shape_text: Seq<char>,
    dtype: Dtype,
    shape: Seq<i32>,
)
    requires
        encode_utf8(text).len() < 65536,
        header_descr(text) == Ok::<_, LoadError>(descr),
        header_shape(text) == Ok::<_, LoadError>(shape_text),
        dtype_of(descr) == Some(dtype),
        shape_of(shape_text) == Some(shape),
    ensures
        ({
            let b = npy_file(minor, encode_utf8(text), items);
            &&& items.len() >= items_of(shape) * item_size(dtype) ==> npy_array(b) == Ok::<
                _,
                LoadError,
            >((dtype, shape, items))
            &&& items.len() < items_of(shape) * item_size(dtype) ==> npy_array(b) == Err::<
                (Dtype, Seq<i32>, Seq<u8>),
                _,
            >(LoadError::DataTooShort)
        }),
{
    lemma_npy_file(minor, encode_utf8(text), items);
    encode_utf8_valid_utf8(text);
    encode_utf8_decode_utf8(text);
}

/// An array file that cannot be read says what is wrong with it: first with the keys of its header,
/// then with the type, then with the shape.
pub proof fn a_bad_array_file_tells_what_is_wrong(minor: u8, text: Seq<char>, items: Seq<u8>)
    requires
        encode_utf8(text).len() < 65536,
    ensures
        ({
            let r = npy_array(npy_file(minor, encode_utf8(text), items));
            match header_descr(text) {
                Err(e) => r == Err::<(Dtype, Seq<i32>, Seq<u8>), _>(e),
                Ok(descr) => match header_shape(text) {
                    Err(e) => r == Err::<(Dtype, Seq<i32>, Seq<u8>), _>(e),
                    Ok(shape) => {
                        &&& dtype_of(descr) is None ==> r == Err::<(Dtype, Seq<i32>, Seq<u8>), _>(
                            LoadError::UnsupportedDtype,
                        )
                        &&& dtype_of(descr) is Some && shape_of(shape) is None ==> r == Err::<
                            (Dtype, Seq<i32>, Seq<u8>),
                            _,
                        >(LoadError::BadShapeToken)
                    },
                },
            }
        }),
{
    lemma_npy_file(minor, encode_utf8(text), items);
    encode_utf8_valid_utf8(text);
    encode_utf8_decode_utf8(text);
}

// Archives.

/// The arrays of an archive are those of its files, in order, each under the name of its file; a file
/// that cannot be read, or holds no array, spoils the archive.
pub proof fn archives_are_read_file_by_file(
    entries: Seq<Option<(Seq<char>, Seq<u8>)>>,
    before: Seq<NamedArray>,
    file: Seq<char>,
    content: Seq<u8>,
)
    requires
        entry_arrays(entries) == Ok::<_, LoadError>(before),
    ensures
        entry_arrays(Seq::<Option<(Seq<char>, Seq<u8>)>>::empty()) == Ok::<_, LoadError>(
            Seq::<NamedArray>::empty(),
        ),
        entry_arrays(entries.push(None)) == Err::<Seq<NamedArray>, _>(LoadError::Archive),
        npy_array(content) matches Ok(a) ==> entry_arrays(entries.push(Some((file, content))))
            == Ok::<_, LoadError>(before.push((array_name(file), a.0, a.1, a.2))),
        npy_array(content) matches Err(e) ==> entry_arrays(entries.push(Some((file, content))))
            == Err::<Seq<NamedArray>, _>(e),
        archive_arrays(Some(entries)) == Ok::<_, LoadError>(before),
        archive_arrays(None) == Err::<Seq<NamedArray>, _>(LoadError::Archive),
{
    assert(entries.push(None).drop_last() =~= entries);
    assert(entries.push(Some((file, content))).drop_last() =~= entries);
}

/// An array is named as its file, without the ending `.npy`.
pub proof fn arrays_are_named_as_their_files(name: Seq<char>)
    ensures
        array_name(name + seq!['.', 'n', 'p', 'y']) == name,
        name.len() < 4 || name.skip(name.len() - 4) != seq!['.', 'n', 'p', 'y'] ==> array_name(name)
            == name,
{
    reveal_strlit(".npy");
    assert(".npy"@ =~= seq!['.', 'n', 'p', 'y']);
    let file = name + seq!['.', 'n', 'p', 'y'];
    assert(file.skip(file.len() - 4) =~= seq!['.', 'n', 'p', 'y']);
    assert(file.take(file.len() - 4) =~= name);
}

/// The first error of an archive is its error.
pub proof fn the_first_error_of_an_archive_counts(
    entries: Seq<Option<(Seq<char>, Seq<u8>)>>,
    e: LoadError,
    next: Option<(Seq<char>, Seq<u8>)>,
)
    requires
        entry_arrays(entries) == Err::<Seq<NamedArray>, _>(e),
    ensures
        entry_arrays(entries.push(next)) == Err::<Seq<NamedArray>, _>(e),
        archive_arrays(Some(entries)) == Err::<Seq<NamedArray>, _>(e),
{
    assert(entries.push(next).drop_last() =~= entries);
}

// Vocabularies.

/// A line is a token in Base64, white space and a rank; white space before them, and whatever stands
/// behind white space after them, changes nothing. A lone `=` is the empty token.
pub proof fn lines_are_a_token_and_a_rank(
    left: Seq<char>,
    token: Seq<char>,
    between: Seq<char>,
    rank: Seq<char>,
    rest: Seq<char>,
)
    requires
        crate::laws::text::all_in(left, TrimSet::White),
        crate::laws::text::all_in(between, TrimSet::White),
        between.len() > 0,
        token.len() > 0,
        rank.len() > 0,
        forall|i: int| 0 <= i < token.len() ==> !crate::text::white_space(#[trigger] token[i]),
        forall|i: int| 0 <= i < rank.len() ==> !crate::text::white_space(#[trigger] rank[i]),
        rest.len() > 0 ==> crate::text::white_space(rest[0]),
    ensures
        ({
            let line = left + token + between + rank + rest;
            match bounded_integer(rank, false, 0, u32::MAX as int) {
                None => line_entry(line) == Err::<(Seq<u8>, u32), _>(VocabularyError::InvalidRank),
                Some(v) => {
                    &&& token == seq!['='] ==> line_entry(line) == Ok::<_, VocabularyError>(
                        (Seq::<u8>::empty(), v as u32),
                    )
                    &&& token != seq!['='] ==> (match base64_bytes(token) {
                        Some(bytes) => line_entry(line) == Ok::<_, VocabularyError>(
                            (bytes, v as u32),
                        ),
                        None => line_entry(line) == Err::<(Seq<u8>, u32), _>(
                            VocabularyError::InvalidBase64,
                        ),
                    })
                },
            }
        }),
{
    reveal_strlit("=");
    assert("="@ =~= seq!['=']);
    let line = left + token + between + rank + rest;
    let behind = between + rank + rest;
    assert(line =~= left + token + behind);
    assert(behind[0] == between[0]);
    crate::laws::text::words_end_at_white_space(left, token, behind);
    crate::laws::text::words_end_at_white_space(between, rank, rest);
}

/// A line without a token or without a rank is refused.
pub proof fn lines_without_a_rank_are_refused(
    left: Seq<char>,
    token: Seq<char>,
    rest: Seq<char>,
)
    requires
        crate::laws::text::all_in(left, TrimSet::White),
        crate::laws::text::all_in(rest, TrimSet::White),
        forall|i: int| 0 <= i < token.len() ==> !crate::text::white_space(#[trigger] token[i]),
    ensures
        token.len() > 0 ==> line_entry(left + token + rest) == Err::<(Seq<u8>, u32), _>(
            VocabularyError::MissingRank,
        ),
        line_entry(left) == Err::<(Seq<u8>, u32), _>(VocabularyError::MissingToken),
{
    let e = Seq::<char>::empty();
    if token.len() > 0 {
        crate::laws::text::words_end_at_white_space(left, token, rest);
        crate::laws::text::words_end_at_white_space(rest, e, e);
        assert(rest + e + e =~= rest);
    }
    crate::laws::text::words_end_at_white_space(left, e, e);
    assert(left + e + e =~= left);
}

/// The first error of a vocabulary is its error.
pub proof fn the_first_error_of_a_vocabulary_counts(
    lines: Seq<Seq<char>>,
    e: VocabularyError,
    line: Seq<char>,
)
    requires
        line_entries(lines) == Err::<Seq<(Seq<u8>, u32)>, _>(e),
    ensures
        line_entries(lines.push(line)) == Err::<Seq<(Seq<u8>, u32)>, _>(e),
{
    assert(lines.push(line).drop_last() =~= lines);
}

/// A vocabulary is read line by line, in order; an empty line is left out, and a line that cannot be
/// read spoils it.
pub proof fn vocabularies_are_read_line_by_line(
    lines: Seq<Seq<char>>,
    before: Seq<(Seq<u8>, u32)>,
    line: Seq<char>,
)
    requires
        line_entries(lines) == Ok::<_, VocabularyError>(before),
    ensures
        line_entries(Seq::<Seq<char>>::empty()) == Ok::<_, VocabularyError>(
            Seq::<(Seq<u8>, u32)>::empty(),
        ),
        line.len() == 0 ==> line_entries(lines.push(line)) == Ok::<_, VocabularyError>(before),
        line.len() > 0 ==> (match line_entry(line) {
            Ok(entry) => line_entries(lines.push(line)) == Ok::<_, VocabularyError>(
                before.push(entry),
            ),
            Err(e) => line_entries(lines.push(line)) == Err::<Seq<(Seq<u8>, u32)>, _>(e),
        }),
{
    assert(lines.push(line).drop_last() =~= lines);
}

} // verus!
