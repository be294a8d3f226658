//! WAV files in memory.

use vstd::prelude::*;

use crate::bytes::{
    i16_list, i32_list, read_i16_list, read_i32_list, read_u16, read_u32, read_u32_list, u16_at,
    u32_at, u32_list,
};

verus! {

/// Why bytes are no WAV file that can be read.
#[derive(Clone, Copy, Debug, PartialEq, Eq, Structural)]
pub enum WavError {
    /// Fewer bytes than a header has.
    TooShort,
    /// The header does not say RIFF and WAVE.
    NotWav,
    /// A format chunk declares less than its 16 bytes.
    FormatTooSmall,
    /// The bytes end within a format chunk.
    FormatTruncated,
    /// There is no format chunk with a channel, or no data chunk.
    MissingChunk,
    /// The sample rate is 0.
    ZeroSampleRate,
    /// The samples are neither 16-bit nor 32-bit integers nor 32-bit floats.
    Unsupported {
        audio_format: u16,
        bits_per_sample: u16,
    },
}

/// What the chunks of a file say: of the format chunks and of the data chunks, the last.
#[derive(Clone, Copy, Debug, PartialEq, Eq, Structural)]
pub struct WavHeader {
    pub audio_format: u16,
    pub channels: u16,
    pub sample_rate: u32,
    pub bits_per_sample: u16,
    /// Where the samples start; 0 where there is no data chunk.
    pub data_start: usize,
    /// How many bytes of samples the file holds.
    pub data_size: usize,
}

/// The header before any chunk.
pub open spec fn no_chunks() -> WavHeader {
    WavHeader {
        audio_format: 0,
        channels: 0,
        sample_rate: 0,
        bits_per_sample: 0,
        data_start: 0,
        data_size: 0,
    }
}

/// Whether the four bytes at `i` are `id`.
pub open spec fn tag_at(b: Seq<u8>, i: int, id: Seq<u8>) -> bool {
    b.subrange(i, i + 4) == id
}

/// `RIFF`.
pub open spec fn riff_tag() -> Seq<u8> {
    seq![0x52u8, 0x49, 0x46, 0x46]
}

/// `WAVE`.
pub open spec fn wave_tag() -> Seq<u8> {
    seq![0x57u8, 0x41, 0x56, 0x45]
}

/// `fmt `.
pub open spec fn fmt_tag() -> Seq<u8> {
    seq![0x66u8, 0x6d, 0x74, 0x20]
}

/// `data`.
pub open spec fn data_tag() -> Seq<u8> {
    seq![0x64u8, 0x61, 0x74, 0x61]
}

/// `header` with the format that stands at `at`.
pub open spec fn with_format(header: WavHeader, b: Seq<u8>, at: int) -> WavHeader {
    WavHeader {
        audio_format: u16_at(b, at),
        channels: u16_at(b, at + 2),
        sample_rate: u32_at(b, at + 4),
        bits_per_sample: u16_at(b, at + 14),
        ..header
    }
}

/// `header` with the data chunk of `size` bytes at `at`, as far as the bytes go.
pub open spec fn with_data(header: WavHeader, b: Seq<u8>, at: int, size: int) -> WavHeader {
    WavHeader {
        data_start: at as usize,
        data_size: (if size < b.len() - at {
            size
        } else {
            b.len() - at
        }) as usize,
        ..header
    }
}

/// How many bytes are left from `pos` on.
pub open spec fn bytes_left(b: Seq<u8>, pos: int) -> nat {
    if pos < b.len() {
        (b.len() - pos) as nat
    } else {
        0
    }
}

/// What the chunks from `pos` on add to `header`. A chunk is a tag, a size and that many bytes,
/// and the next chunk starts at an even distance.
pub open spec fn scan_chunks(b: Seq<u8>, pos: int, header: WavHeader) -> Result<
    WavHeader,
    WavError,
>
    decreases bytes_left(b, pos),
{
    if pos < 0 || pos + 8 > b.len() {
        Ok(header)
    } else {
        let size = u32_at(b, pos + 4) as int;
        let at = pos + 8;
        let next = at + size + size % 2;
        if tag_at(b, pos, fmt_tag()) {
            if size < 16 {
                Err(WavError::FormatTooSmall)
            } else if at + 16 > b.len() {
                Err(WavError::FormatTruncated)
            } else {
                scan_chunks(b, next, with_format(header, b, at))
            }
        } else if tag_at(b, pos, data_tag()) {
            scan_chunks(b, next, with_data(header, b, at, size))
        } else {
            scan_chunks(b, next, header)
        }
    }
}

/// The header of a WAV file.
pub open spec fn wav_header(b: Seq<u8>) -> Result<WavHeader, WavError> {
    if b.len() < 12 {
        Err(WavError::TooShort)
    } else if !tag_at(b, 0, riff_tag()) || !tag_at(b, 8, wave_tag()) {
        Err(WavError::NotWav)
    } else {
        match scan_chunks(b, 12, no_chunks()) {
            Err(e) => Err(e),
            Ok(h) => if h.channels == 0 || h.data_start == 0 {
                Err(WavError::MissingChunk)
            } else if h.sample_rate == 0 {
                Err(WavError::ZeroSampleRate)
            } else {
                Ok(h)
            },
        }
    }
}

/// Samples as a file holds them.
pub enum Samples {
    /// Signed 16-bit integers, in units of 1/32768.
    Pcm16(Vec<i16>),
    /// Signed 32-bit integers, in units of 1/2147483648.
    Pcm32(Vec<i32>),
    /// The bit patterns of 32-bit floats.
    Float32(Vec<u32>),
}

impl Samples {
    /// The number of samples.
    pub open spec fn count(self) -> nat {
        match self {
            Samples::Pcm16(v) => v@.len(),
            Samples::Pcm32(v) => v@.len(),
            Samples::Float32(v) => v@.len(),
        }
    }
}

/// Samples of one or more channels, frame by frame.
pub struct WavAudio {
    /// The samples of whole frames: one for each channel, then those of the next frame.
    pub samples: Samples,
    pub channels: u16,
}

impl WavAudio {
    /// There is a channel, and the samples are those of whole frames.
    pub open spec fn wf(self) -> bool {
        &&& self.channels > 0
        &&& self.samples.count() % (self.channels as nat) == 0
    }
}

/// The number of samples in whole frames, out of `n`.
pub open spec fn whole_frames(n: int, channels: u16) -> int {
    n - n % (channels as int)
}

/// Whether `samples` are those of `raw`, of whole frames, in the format that `h` names.
pub open spec fn holds_samples(samples: Samples, h: WavHeader, raw: Seq<u8>) -> bool {
    match samples {
        Samples::Pcm16(v) => h.audio_format == 1 && h.bits_per_sample == 16 && v@ == i16_list(
            raw,
        ).take(whole_frames((raw.len() / 2) as int, h.channels)),
        Samples::Pcm32(v) => h.audio_format == 1 && h.bits_per_sample == 32 && v@ == i32_list(
            raw,
        ).take(whole_frames((raw.len() / 4) as int, h.channels)),
        Samples::Float32(v) => h.audio_format == 3 && h.bits_per_sample == 32 && v@ == u32_list(
            raw,
        ).take(whole_frames((raw.len() / 4) as int, h.channels)),
    }
}

/// Whether samples in the format of `h` can be read.
pub open spec fn supported(h: WavHeader) -> bool {
    (h.audio_format == 1 && (h.bits_per_sample == 16 || h.bits_per_sample == 32)) || (
    h.audio_format == 3 && h.bits_per_sample == 32)
}

/// The samples lie within the file.
proof fn lemma_data_within(b: Seq<u8>, pos: int, header: WavHeader)
    requires
        b.len() <= usize::MAX,
        header.data_start + header.data_size <= b.len(),
    ensures
        scan_chunks(b, pos, header) matches Ok(h) ==> h.data_start + h.data_size <= b.len(),
    decreases bytes_left(b, pos),
{
    if 0 <= pos && pos + 8 <= b.len() {
        let size = u32_at(b, pos + 4) as int;
        let at = pos + 8;
        let next = at + size + size % 2;
        lemma_data_within(b, next, header);
        lemma_data_within(b, next, with_format(header, b, at));
        lemma_data_within(b, next, with_data(header, b, at, size));
    }
}

/// Whether four bytes are those given.
fn tag_is(b: &[u8], i: usize, t0: u8, t1: u8, t2: u8, t3: u8) -> (r: bool)
    requires
        i + 4 <= b@.len(),
    ensures
        r == tag_at(b@, i as int, seq![t0, t1, t2, t3]),
{
    let r = b[i] == t0 && b[i + 1] == t1 && b[i + 2] == t2 && b[i + 3] == t3;
    proof {
        let s = b@.subrange(i as int, i + 4);
        if r {
            assert(s =~= seq![t0, t1, t2, t3]);
        } else {
            assert(s[0] == b@[i as int] && s[1] == b@[i + 1] && s[2] == b@[i + 2] && s[3]
                == b@[i + 3]);
        }
    }
    r
}

/// Reads the chunks of a file.
fn read_chunks(b: &[u8]) -> (r: Result<WavHeader, WavError>)
    requires
        b@.len() >= 12,
    ensures
        r == scan_chunks(b@, 12, no_chunks()),
{
    let mut header = WavHeader {
        audio_format: 0,
        channels: 0,
        sample_rate: 0,
        bits_per_sample: 0,
        data_start: 0,
        data_size: 0,
    };
    let mut pos: usize = 12;
    while pos <= b.len() && b.len() - pos >= 8
        invariant
            12 <= pos,
            scan_chunks(b@, pos as int, header) == scan_chunks(b@, 12, no_chunks()),
        decreases b@.len() - pos,
    {
        let size: u32 = read_u32(b, pos + 4);
        let at: usize = pos + 8;
        let room: usize = b.len() - at;
        if tag_is(b, pos, 0x66, 0x6d, 0x74, 0x20) {
            if size < 16 {
                return Err(WavError::FormatTooSmall);
            }
            if room < 16 {
                return Err(WavError::FormatTruncated);
            }
            header.audio_format = read_u16(b, at);
            header.channels = read_u16(b, at + 2);
            header.sample_rate = read_u32(b, at + 4);
            header.bits_per_sample = read_u16(b, at + 14);
        } else if tag_is(b, pos, 0x64, 0x61, 0x74, 0x61) {
            header.data_start = at;
            header.data_size = if (size as u64) < room as u64 {
                size as usize
            } else {
                room
            };
        }
        let ghost next = at + size + size % 2;
        assert(scan_chunks(b@, next, header) == scan_chunks(b@, 12, no_chunks()));
        if size as u64 + (size % 2) as u64 > room as u64 {
            assert(next + 8 > b@.len());
            return Ok(header);
        }
        pos = at + (size as usize + (size % 2) as usize);
    }
    Ok(header)
}

/// Reads the header of a WAV file.
pub fn read_header(b: &[u8]) -> (r: Result<WavHeader, WavError>)
    ensures
        r == wav_header(b@),
        r matches Ok(h) ==> h.data_start + h.data_size <= b@.len(),
{
    if b.len() < 12 {
        return Err(WavError::TooShort);
    }
    let riff = tag_is(b, 0, 0x52, 0x49, 0x46, 0x46);
    let wave = tag_is(b, 8, 0x57, 0x41, 0x56, 0x45);
    if !riff || !wave {
        return Err(WavError::NotWav);
    }
    proof {
        lemma_data_within(b@, 12, no_chunks());
    }
    match read_chunks(b) {
        Err(e) => Err(e),
        Ok(h) => {
            if h.channels == 0 || h.data_start == 0 {
                Err(WavError::MissingChunk)
            } else if h.sample_rate == 0 {
                Err(WavError::ZeroSampleRate)
            } else {
                Ok(h)
            }
        },
    }
}

/// Reads a WAV file: its samples, in whole frames, and its sample rate.
///
/// The samples are 16-bit or 32-bit integers or 32-bit floats.
pub fn audio_from_wav_bytes(bytes: &[u8]) -> (r: Result<(WavAudio, u32), WavError>)
    ensures
        match wav_header(bytes@) {
            Err(e) => r == Err::<(WavAudio, u32), _>(e),
            Ok(h) => if supported(h) {
                r matches Ok((audio, sample_rate)) && {
                    &&& audio.wf()
                    &&& audio.channels == h.channels
                    &&& sample_rate == h.sample_rate
                    &&& holds_samples(
                        audio.samples,
                        h,
                        bytes@.subrange(h.data_start as int, h.data_start + h.data_size),
                    )
                }
            } else {
                r == Err::<(WavAudio, u32), _>(
                    WavError::Unsupported {
                        audio_format: h.audio_format,
                        bits_per_sample: h.bits_per_sample,
                    },
                )
            },
        },
{
    let h = match read_header(bytes) {
        Ok(h) => h,
        Err(e) => {
            return Err(e);
        },
    };
    let total: usize = bytes.len();
    assert(h.data_start + h.data_size <= total);
    let raw = &bytes[h.data_start..h.data_start + h.data_size];
    let ch: usize = h.channels as usize;
    let samples = if h.audio_format == 1 && h.bits_per_sample == 16 {
        let mut v = read_i16_list(raw);
        proof {
            lemma_whole(raw@.len() as int / 2, h.channels);
        }
        let n: usize = v.len() - v.len() % ch;
        v.truncate(n);
        assert(v@ =~= i16_list(raw@).take(n as int));
        Samples::Pcm16(v)
    } else if h.audio_format == 1 && h.bits_per_sample == 32 {
        let mut v = read_i32_list(raw);
        proof {
            lemma_whole(raw@.len() as int / 4, h.channels);
        }
        let n: usize = v.len() - v.len() % ch;
        v.truncate(n);
        assert(v@ =~= i32_list(raw@).take(n as int));
        Samples::Pcm32(v)
    } else if h.audio_format == 3 && h.bits_per_sample == 32 {
        let mut v = read_u32_list(raw);
        proof {
            lemma_whole(raw@.len() as int / 4, h.channels);
        }
        let n: usize = v.len() - v.len() % ch;
        v.truncate(n);
        assert(v@ =~= u32_list(raw@).take(n as int));
        Samples::Float32(v)
    } else {
        return Err(
            WavError::Unsupported {
                audio_format: h.audio_format,
                bits_per_sample: h.bits_per_sample,
            },
        );
    };
    Ok((WavAudio { samples, channels: h.channels }, h.sample_rate))
}

/// Whole frames are whole.
proof fn lemma_whole(n: int, channels: u16)
    requires
        n >= 0,
        channels > 0,
    ensures
        0 <= whole_frames(n, channels) <= n,
        whole_frames(n, channels) % (channels as int) == 0,
{
    let c = channels as int;
    vstd::arithmetic::div_mod::lemma_fundamental_div_mod(n, c);
    vstd::arithmetic::div_mod::lemma_mod_bound(n, c);
    assert(n - n % c == c * (n / c));
    vstd::arithmetic::div_mod::lemma_mod_multiples_basic(n / c, c);
    assert((n / c) * c == c * (n / c)) by (nonlinear_arith);
    assert(n % c <= n) by (nonlinear_arith)
        requires
            n >= 0,
            c > 0,
    ;
}

/// A chunk: its tag and its bytes.
pub struct Chunk {
    pub tag: Seq<u8>,
    pub payload: Seq<u8>,
}

impl Chunk {
    /// The tag has four bytes, and the size fits in its field.
    pub open spec fn wf(self) -> bool {
        self.tag.len() == 4 && self.payload.len() <= u32::MAX
    }

    /// The chunk as it stands in a file: the tag, the size, the bytes, and a byte of padding
    /// where the size is odd.
    pub open spec fn bytes(self) -> Seq<u8> {
        let n = self.payload.len();
        self.tag + seq![
            (n % 256) as u8,
            (n / 256 % 256) as u8,
            (n / 65536 % 256) as u8,
            (n / 16777216 % 256) as u8,
        ] + self.payload + if n % 2 == 1 {
            seq![0u8]
        } else {
            seq![]
        }
    }

    /// Neither a format chunk nor a data chunk.
    pub open spec fn is_other(self) -> bool {
        self.wf() && self.tag != fmt_tag() && self.tag != data_tag()
    }
}

/// Chunks one behind the other.
pub open spec fn chunk_list(chunks: Seq<Chunk>) -> Seq<u8>
    decreases chunks.len(),
{
    if chunks.len() == 0 {
        seq![]
    } else {
        chunks[0].bytes() + chunk_list(chunks.drop_first())
    }
}

/// Whether `part` stands in `b` at `pos`.
pub open spec fn stands_at(b: Seq<u8>, pos: int, part: Seq<u8>) -> bool {
    0 <= pos && pos + part.len() <= b.len() && b.subrange(pos, pos + part.len()) == part
}

/// Where the parts of a chunk stand in it.
proof fn lemma_chunk_bytes(chunk: Chunk)
    requires
        chunk.wf(),
    ensures
        chunk.bytes().len() == 8 + chunk.payload.len() + chunk.payload.len() % 2,
        chunk.bytes().subrange(0, 4) == chunk.tag,
        u32_at(chunk.bytes(), 4) == chunk.payload.len(),
        chunk.bytes().subrange(8, 8int + chunk.payload.len()) == chunk.payload,
{
    let c = chunk.bytes();
    let n = chunk.payload.len() as int;
    assert(c.subrange(0, 4) =~= chunk.tag);
    assert(c.subrange(8, 8 + n) =~= chunk.payload);
    assert(c[4] == (n % 256) as u8);
    assert(c[5] == (n / 256 % 256) as u8);
    assert(c[6] == (n / 65536 % 256) as u8);
    assert(c[7] == (n / 16777216 % 256) as u8);
    assert(n == n % 256 + 256 * (n / 256 % 256) + 65536 * (n / 65536 % 256) + 16777216 * (n
        / 16777216 % 256));
}

/// The part of a part.
proof fn lemma_part_of_part(b: Seq<u8>, pos: int, part: Seq<u8>, i: int, j: int)
    requires
        stands_at(b, pos, part),
        0 <= i <= j <= part.len(),
    ensures
        b.subrange(pos + i, pos + j) == part.subrange(i, j),
{
    assert forall|k: int| 0 <= k < j - i implies b.subrange(pos + i, pos + j)[k] == part.subrange(
        i,
        j,
    )[k] by {
        assert(part[i + k] == b.subrange(pos, pos + part.len())[i + k]);
    }
    assert(b.subrange(pos + i, pos + j) =~= part.subrange(i, j));
}

/// A number within a part.
proof fn lemma_number_in_part(b: Seq<u8>, pos: int, part: Seq<u8>, i: int)
    requires
        stands_at(b, pos, part),
        0 <= i,
    ensures
        i + 2 <= part.len() ==> u16_at(b, pos + i) == u16_at(part, i),
        i + 4 <= part.len() ==> u32_at(b, pos + i) == u32_at(part, i),
{
    let sub = b.subrange(pos, pos + part.len());
    if i + 2 <= part.len() {
        assert(part[i] == sub[i] && part[i + 1] == sub[i + 1]);
    }
    if i + 4 <= part.len() {
        assert(part[i + 2] == sub[i + 2] && part[i + 3] == sub[i + 3]);
    }
}

/// What a chunk at `pos` adds to a header.
pub open spec fn after_chunk(header: WavHeader, b: Seq<u8>, pos: int, chunk: Chunk) -> WavHeader {
    if chunk.tag == fmt_tag() {
        with_format(header, chunk.payload, 0)
    } else if chunk.tag == data_tag() {
        with_data(header, b, pos + 8, chunk.payload.len() as int)
    } else {
        header
    }
}

/// A chunk is read as what it is, and reading goes on right behind it.
proof fn lemma_chunk(b: Seq<u8>, pos: int, chunk: Chunk, header: WavHeader)
    requires
        chunk.wf(),
        chunk.tag == fmt_tag() ==> chunk.payload.len() >= 16,
        stands_at(b, pos, chunk.bytes()),
    ensures
        scan_chunks(b, pos, header) == scan_chunks(
            b,
            pos + chunk.bytes().len(),
            after_chunk(header, b, pos, chunk),
        ),
        stands_at(b, pos + 8, chunk.payload),
{
    let c = chunk.bytes();
    let n = chunk.payload.len() as int;
    lemma_chunk_bytes(chunk);
    lemma_part_of_part(b, pos, c, 0, 4);
    lemma_part_of_part(b, pos, c, 8, 8 + n);
    lemma_number_in_part(b, pos, c, 4);
    if chunk.tag == fmt_tag() {
        lemma_number_in_part(b, pos + 8, chunk.payload, 0);
        lemma_number_in_part(b, pos + 8, chunk.payload, 2);
        lemma_number_in_part(b, pos + 8, chunk.payload, 4);
        lemma_number_in_part(b, pos + 8, chunk.payload, 14);
        assert(with_format(header, b, pos + 8) == with_format(header, chunk.payload, 0));
    }
}

/// Of `b`, made of `head` and `x` and `tail`: `x` stands behind `head`.
proof fn lemma_peel(b: Seq<u8>, head: Seq<u8>, x: Seq<u8>, tail: Seq<u8>)
    requires
        b == head + (x + tail),
    ensures
        stands_at(b, head.len() as int, x),
        b == (head + x) + tail,
        (head + x).len() == head.len() + x.len(),
{
    assert(b.subrange(head.len() as int, (head.len() + x.len()) as int) =~= x);
    assert(b =~= (head + x) + tail);
}

/// Chunks that are neither format nor data chunks are passed over.
proof fn lemma_other_chunks(b: Seq<u8>, pos: int, chunks: Seq<Chunk>, header: WavHeader)
    requires
        stands_at(b, pos, chunk_list(chunks)),
        forall|i: int| 0 <= i < chunks.len() ==> (#[trigger] chunks[i]).is_other(),
    ensures
        scan_chunks(b, pos, header) == scan_chunks(b, pos + chunk_list(chunks).len(), header),
    decreases chunks.len(),
{
    if chunks.len() > 0 {
        let whole = chunk_list(chunks);
        let first = chunks[0].bytes();
        let more = chunk_list(chunks.drop_first());
        let n = first.len() as int;
        lemma_part_of_part(b, pos, whole, 0, n);
        lemma_part_of_part(b, pos, whole, n, whole.len() as int);
        assert(whole.subrange(0, n) =~= first);
        assert(whole.subrange(n, whole.len() as int) =~= more);
        assert(chunks[0].is_other());
        lemma_chunk(b, pos, chunks[0], header);
        assert forall|i: int| 0 <= i < chunks.drop_first().len() implies (
        #[trigger] chunks.drop_first()[i]).is_other() by {
            assert(chunks[i + 1].is_other());
        }
        lemma_other_chunks(b, pos + n, chunks.drop_first(), header);
    }
}

/// A file with other chunks, of odd or even size, before, between and behind its format chunk
/// and its data chunk.
pub open spec fn wav_file(
    size: Seq<u8>,
    before: Seq<Chunk>,
    format: Seq<u8>,
    between: Seq<Chunk>,
    data: Seq<u8>,
    behind: Seq<Chunk>,
) -> Seq<u8> {
    riff_tag() + (size + (wave_tag() + (chunk_list(before) + ((Chunk {
        tag: fmt_tag(),
        payload: format,
    }).bytes() + (chunk_list(between) + ((Chunk { tag: data_tag(), payload: data }).bytes()
        + chunk_list(behind)))))))
}

/// Of `b`, made of eight parts: each stands behind those before it.
proof fn lemma_parts(
    b: Seq<u8>,
    x0: Seq<u8>,
    x1: Seq<u8>,
    x2: Seq<u8>,
    x3: Seq<u8>,
    x4: Seq<u8>,
    x5: Seq<u8>,
    x6: Seq<u8>,
    x7: Seq<u8>,
)
    requires
        b == x0 + (x1 + (x2 + (x3 + (x4 + (x5 + (x6 + x7)))))),
    ensures
        ({
            let p1 = x0.len() as int;
            let p2 = p1 + x1.len() as int;
            let p3 = p2 + x2.len() as int;
            let p4 = p3 + x3.len() as int;
            let p5 = p4 + x4.len() as int;
            let p6 = p5 + x5.len() as int;
            let p7 = p6 + x6.len() as int;
            &&& stands_at(b, 0, x0)
            &&& stands_at(b, p1, x1)
            &&& stands_at(b, p2, x2)
            &&& stands_at(b, p3, x3)
            &&& stands_at(b, p4, x4)
            &&& stands_at(b, p5, x5)
            &&& stands_at(b, p6, x6)
            &&& stands_at(b, p7, x7)
            &&& b.len() == p7 + x7.len()
        }),
{
    let t6 = x6 + x7;
    let t5 = x5 + t6;
    let t4 = x4 + t5;
    let t3 = x3 + t4;
    let t2 = x2 + t3;
    let t1 = x1 + t2;
    let e = Seq::<u8>::empty();
    assert(b =~= e + (x0 + t1));
    lemma_peel(b, e, x0, t1);
    let h1 = e + x0;
    lemma_peel(b, h1, x1, t2);
    let h2 = h1 + x1;
    lemma_peel(b, h2, x2, t3);
    let h3 = h2 + x2;
    lemma_peel(b, h3, x3, t4);
    let h4 = h3 + x3;
    lemma_peel(b, h4, x4, t5);
    let h5 = h4 + x4;
    lemma_peel(b, h5, x5, t6);
    let h6 = h5 + x5;
    lemma_peel(b, h6, x6, x7);
    let h7 = h6 + x6;
    assert(x7 =~= x7 + e);
    lemma_peel(b, h7, x7, e);
}

/// The chunks of such a file, from where they start, are read as the format chunk and the data
/// chunk say.
proof fn lemma_file_is_scanned(
    b: Seq<u8>,
    before: Seq<Chunk>,
    format: Seq<u8>,
    between: Seq<Chunk>,
    data: Seq<u8>,
    behind: Seq<Chunk>,
)
    requires
        16 <= format.len() <= u32::MAX,
        data.len() <= u32::MAX,
        forall|i: int| 0 <= i < before.len() ==> (#[trigger] before[i]).is_other(),
        forall|i: int| 0 <= i < between.len() ==> (#[trigger] between[i]).is_other(),
        forall|i: int| 0 <= i < behind.len() ==> (#[trigger] behind[i]).is_other(),
        b.len() <= usize::MAX,
        ({
            let x4 = (Chunk { tag: fmt_tag(), payload: format }).bytes();
            let x6 = (Chunk { tag: data_tag(), payload: data }).bytes();
            let p4 = 12 + chunk_list(before).len() as int;
            let p5 = p4 + x4.len() as int;
            let p6 = p5 + chunk_list(between).len() as int;
            let p7 = p6 + x6.len() as int;
            &&& stands_at(b, 12, chunk_list(before))
            &&& stands_at(b, p4, x4)
            &&& stands_at(b, p5, chunk_list(between))
            &&& stands_at(b, p6, x6)
            &&& stands_at(b, p7, chunk_list(behind))
            &&& b.len() == p7 + chunk_list(behind).len()
        }),
    ensures
        scan_chunks(b, 12, no_chunks()) matches Ok(h) && {
            &&& h.audio_format == u16_at(format, 0)
            &&& h.channels == u16_at(format, 2)
            &&& h.sample_rate == u32_at(format, 4)
            &&& h.bits_per_sample == u16_at(format, 14)
            &&& h.data_start >= 12
            &&& h.data_size == data.len()
            &&& b.subrange(h.data_start as int, h.data_start + h.data_size) == data
        },
{
    let fmt_chunk = Chunk { tag: fmt_tag(), payload: format };
    let data_chunk = Chunk { tag: data_tag(), payload: data };
    let p4 = 12 + chunk_list(before).len() as int;
    let p5 = p4 + fmt_chunk.bytes().len() as int;
    let p6 = p5 + chunk_list(between).len() as int;
    let p7 = p6 + data_chunk.bytes().len() as int;
    assert(data_tag() != fmt_tag()) by {
        assert(data_tag()[0] != fmt_tag()[0]);
    }
    let h0 = no_chunks();
    let h1 = with_format(h0, format, 0);
    let h2 = with_data(h1, b, p6 + 8, data.len() as int);
    lemma_other_chunks(b, 12, before, h0);
    lemma_chunk(b, p4, fmt_chunk, h0);
    lemma_other_chunks(b, p5, between, h1);
    lemma_chunk(b, p6, data_chunk, h1);
    lemma_other_chunks(b, p7, behind, h2);
    assert(scan_chunks(b, b.len() as int, h2) == Ok::<_, WavError>(h2));
}

/// Other chunks make no difference: a file is read as its format chunk and its data chunk say,
/// whatever else it holds, and the samples are all the bytes of the data chunk.
pub proof fn other_chunks_are_skipped(
    size: Seq<u8>,
    before: Seq<Chunk>,
    format: Seq<u8>,
    between: Seq<Chunk>,
    data: Seq<u8>,
    behind: Seq<Chunk>,
)
    requires
        size.len() == 4,
        16 <= format.len() <= u32::MAX,
        data.len() <= u32::MAX,
        forall|i: int| 0 <= i < before.len() ==> (#[trigger] before[i]).is_other(),
        forall|i: int| 0 <= i < between.len() ==> (#[trigger] between[i]).is_other(),
        forall|i: int| 0 <= i < behind.len() ==> (#[trigger] behind[i]).is_other(),
        u16_at(format, 2) > 0,
        u32_at(format, 4) > 0,
        wav_file(size, before, format, between, data, behind).len() <= usize::MAX,
    ensures
        wav_header(wav_file(size, before, format, between, data, behind)) matches Ok(h) && {
            &&& h.audio_format == u16_at(format, 0)
            &&& h.channels == u16_at(format, 2)
            &&& h.sample_rate == u32_at(format, 4)
            &&& h.bits_per_sample == u16_at(format, 14)
            &&& h.data_size == data.len()
            &&& wav_file(size, before, format, between, data, behind).subrange(
                h.data_start as int,
                h.data_start + h.data_size,
            ) == data
        },
{
    let b = wav_file(size, before, format, between, data, behind);
    let x3 = chunk_list(before);
    let x4 = (Chunk { tag: fmt_tag(), payload: format }).bytes();
    let x5 = chunk_list(between);
    let x6 = (Chunk { tag: data_tag(), payload: data }).bytes();
    let x7 = chunk_list(behind);
    lemma_parts(b, riff_tag(), size, wave_tag(), x3, x4, x5, x6, x7);
    lemma_file_is_scanned(b, before, format, between, data, behind);
    assert(tag_at(b, 0, riff_tag()));
    assert(tag_at(b, 8, wave_tag()));
}

} // verus!
