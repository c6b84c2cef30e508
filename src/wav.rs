use vstd::prelude::*;

use byteorder::{BigEndian, ByteOrder, LittleEndian};

verus! {

/// The little-endian unsigned integer in `b[at..at + 2]`.
pub open spec fn le_u16_at(b: Seq<u8>, at: int) -> int {
    b[at] + 256 * b[at + 1]
}

/// The little-endian unsigned integer in `b[at..at + 4]`.
pub open spec fn le_u32_at(b: Seq<u8>, at: int) -> int {
    b[at] + 256 * b[at + 1] + 65536 * b[at + 2] + 16777216 * b[at + 3]
}

/// The big-endian unsigned integer in `b[at..at + 4]`.
pub open spec fn be_u32_at(b: Seq<u8>, at: int) -> int {
    16777216 * b[at] + 65536 * b[at + 1] + 256 * b[at + 2] + b[at + 3]
}

/// The little-endian two's complement integer in `b[at..at + 2]`.
pub open spec fn le_i16_at(b: Seq<u8>, at: int) -> int {
    let u = le_u16_at(b, at);
    if u >= 0x8000 {
        u - 0x1_0000
    } else {
        u
    }
}

/// The little-endian two's complement integer in `b[at..at + 3]`.
pub open spec fn le_i24_at(b: Seq<u8>, at: int) -> int {
    let u = b[at] + 256 * b[at + 1] + 65536 * b[at + 2];
    if u >= 0x80_0000 {
        u - 0x100_0000
    } else {
        u
    }
}

/// Relies on byteorder's `LittleEndian::read_u16`: the two bytes at `at`,
/// least significant first.
#[verifier::external_body]
fn read_le_u16(buf: &[u8], at: usize) -> (r: u16)
    requires
        at + 2 <= buf@.len(),
    ensures
        r as int == le_u16_at(buf@, at as int),
{
    LittleEndian::read_u16(&buf[at..])
}

/// Relies on byteorder's `LittleEndian::read_u32`: the four bytes at `at`,
/// least significant first.
#[verifier::external_body]
fn read_le_u32(buf: &[u8], at: usize) -> (r: u32)
    requires
        at + 4 <= buf@.len(),
    ensures
        r as int == le_u32_at(buf@, at as int),
{
    LittleEndian::read_u32(&buf[at..])
}

/// Relies on byteorder's `BigEndian::read_u32`: the four bytes at `at`, most
/// significant first.
#[verifier::external_body]
fn read_be_u32(buf: &[u8], at: usize) -> (r: u32)
    requires
        at + 4 <= buf@.len(),
    ensures
        r as int == be_u32_at(buf@, at as int),
{
    BigEndian::read_u32(&buf[at..])
}

/// Relies on byteorder's `LittleEndian::read_i16`: the two bytes at `at`,
/// least significant first, as a two's complement integer.
#[verifier::external_body]
fn read_le_i16(buf: &[u8], at: usize) -> (r: i16)
    requires
        at + 2 <= buf@.len(),
    ensures
        r as int == le_i16_at(buf@, at as int),
{
    LittleEndian::read_i16(&buf[at..])
}

/// Relies on byteorder's `LittleEndian::read_i24`: the three bytes at `at`,
/// least significant first, as a sign-extended 24-bit integer.
#[verifier::external_body]
fn read_le_i24(buf: &[u8], at: usize) -> (r: i32)
    requires
        at + 3 <= buf@.len(),
    ensures
        r as int == le_i24_at(buf@, at as int),
{
    LittleEndian::read_i24(&buf[at..])
}

/// A failure to read a PCM WAV file.
#[derive(Debug, PartialEq, Eq, Structural)]
pub enum WaveReaderError {
    NotRiffError,
    NotWaveError,
    NotPCMError,
    ChunkTypeError,
    DataAlignmentError,
    ReadError,
}

impl WaveReaderError {
    /// A sentence that describes the error.
    pub fn message(&self) -> (r: &'static str)
        ensures
            *self == WaveReaderError::NotRiffError ==> r@ == "Not a RIFF file"@,
            *self == WaveReaderError::NotWaveError ==> r@ == "Not a WAVE file"@,
            *self == WaveReaderError::NotPCMError ==> r@ == "Not a PCM format"@,
            *self == WaveReaderError::ChunkTypeError ==> r@ == "Unexpected chunk type"@,
            *self == WaveReaderError::DataAlignmentError ==> r@ == "Data alignment error"@,
            *self == WaveReaderError::ReadError ==> r@ == "Error reading file"@,
    {
        match self {
            WaveReaderError::NotRiffError => "Not a RIFF file",
            WaveReaderError::NotWaveError => "Not a WAVE file",
            WaveReaderError::NotPCMError => "Not a PCM format",
            WaveReaderError::ChunkTypeError => "Unexpected chunk type",
            WaveReaderError::DataAlignmentError => "Data alignment error",
            WaveReaderError::ReadError => "Error reading file",
        }
    }
}

/// The RIFF header: the first 12 bytes of a WAV file.
pub struct RiffChunk {
    pub file_size: u32,
    pub is_big_endian: bool,
}

/// The format of PCM samples: channels, sample rate and bits per sample.
#[derive(Clone, Copy)]
pub struct PCMWaveFormatChunk {
    pub num_channels: u16,
    pub samp_rate: u32,
    pub bps: u16,
}

/// `Fs · C · B / 8`.
pub open spec fn byte_rate_of(f: PCMWaveFormatChunk) -> int {
    f.samp_rate * f.num_channels * f.bps / 8
}

/// `C · B / 8`: the bytes of one inter-channel sample.
pub open spec fn block_align_of(f: PCMWaveFormatChunk) -> int {
    f.num_channels * f.bps / 8
}

impl PCMWaveFormatChunk {
    fn exact_byte_rate(&self) -> (r: u128)
        ensures
            r as int == byte_rate_of(*self),
    {
        let a = self.samp_rate as u128;
        let b = self.num_channels as u128;
        let c = self.bps as u128;
        proof {
            assert(a * b <= 0xffff_ffff * 0xffff) by (nonlinear_arith)
                requires
                    a <= 0xffff_ffff,
                    b <= 0xffff,
            ;
            assert(a * b * c <= 0xffff_ffff * 0xffff * 0xffff) by (nonlinear_arith)
                requires
                    a * b <= 0xffff_ffff * 0xffff,
                    c <= 0xffff,
            ;
        }
        a * b * c / 8
    }

    fn exact_block_align(&self) -> (r: u32)
        ensures
            r as int == block_align_of(*self),
    {
        let a = self.num_channels as u32;
        let b = self.bps as u32;
        proof {
            assert(a * b <= 0xffff * 0xffff) by (nonlinear_arith)
                requires
                    a <= 0xffff,
                    b <= 0xffff,
            ;
        }
        a * b / 8
    }

    /// The bytes of one second of audio.
    pub fn byte_rate(&self) -> (r: u32)
        requires
            byte_rate_of(*self) <= u32::MAX,
        ensures
            r as int == byte_rate_of(*self),
    {
        self.exact_byte_rate() as u32
    }

    /// The bytes of one inter-channel sample: all channels of one instant.
    pub fn block_align(&self) -> (r: u16)
        requires
            block_align_of(*self) <= u16::MAX,
        ensures
            r as int == block_align_of(*self),
    {
        self.exact_block_align() as u16
    }
}

/// `RIFF`
pub open spec fn riff_tag() -> Seq<u8> {
    seq![0x52u8, 0x49u8, 0x46u8, 0x46u8]
}

/// `RIFX`
pub open spec fn rifx_tag() -> Seq<u8> {
    seq![0x52u8, 0x49u8, 0x46u8, 0x58u8]
}

/// `WAVE`
pub open spec fn wave_tag() -> Seq<u8> {
    seq![0x57u8, 0x41u8, 0x56u8, 0x45u8]
}

/// `fmt `
pub open spec fn fmt_tag() -> Seq<u8> {
    seq![0x66u8, 0x6du8, 0x74u8, 0x20u8]
}

/// `data`
pub open spec fn data_tag() -> Seq<u8> {
    seq![0x64u8, 0x61u8, 0x74u8, 0x61u8]
}

/// The four bytes at `at` are the tag `t`.
pub open spec fn tag_at(b: Seq<u8>, at: int, t: Seq<u8>) -> bool {
    0 <= at && at + 4 <= b.len() && b.subrange(at, at + 4) == t
}

/// What the 12-byte RIFF header at the start of `b` reads as.
pub open spec fn riff_result(b: Seq<u8>) -> Result<RiffChunk, WaveReaderError> {
    if b.len() < 4 {
        Err(WaveReaderError::ReadError)
    } else if !tag_at(b, 0, riff_tag()) && !tag_at(b, 0, rifx_tag()) {
        Err(WaveReaderError::NotRiffError)
    } else if b.len() < 12 {
        Err(WaveReaderError::ReadError)
    } else if !tag_at(b, 8, wave_tag()) {
        Err(WaveReaderError::NotWaveError)
    } else {
        let big = tag_at(b, 0, rifx_tag());
        Ok(
            RiffChunk {
                file_size: (if big {
                    be_u32_at(b, 4)
                } else {
                    le_u32_at(b, 4)
                }) as u32,
                is_big_endian: big,
            },
        )
    }
}

/// The format that the 24-byte format chunk at `at` declares.
pub open spec fn fmt_of(b: Seq<u8>, at: int) -> PCMWaveFormatChunk {
    PCMWaveFormatChunk {
        num_channels: le_u16_at(b, at + 10) as u16,
        samp_rate: le_u32_at(b, at + 12) as u32,
        bps: le_u16_at(b, at + 22) as u16,
    }
}

/// What the format chunk at `at` reads as: its tag, the PCM format code 1,
/// and a byte rate and block alignment that agree with the format.
pub open spec fn fmt_result(b: Seq<u8>, at: int) -> Result<PCMWaveFormatChunk, WaveReaderError> {
    if b.len() < at + 4 {
        Err(WaveReaderError::ReadError)
    } else if !tag_at(b, at, fmt_tag()) {
        Err(WaveReaderError::ChunkTypeError)
    } else if b.len() < at + 10 {
        Err(WaveReaderError::ReadError)
    } else if le_u16_at(b, at + 8) != 1 {
        Err(WaveReaderError::NotPCMError)
    } else if b.len() < at + 24 {
        Err(WaveReaderError::ReadError)
    } else if le_u32_at(b, at + 16) != byte_rate_of(fmt_of(b, at)) || le_u16_at(b, at + 20)
        != block_align_of(fmt_of(b, at)) {
        Err(WaveReaderError::DataAlignmentError)
    } else {
        Ok(fmt_of(b, at))
    }
}

/// The data chunks from `at` on, each as its declared size and the sample
/// bytes present; the list ends at the first chunk that is not a data chunk
/// and after one that runs past the end of `b`.
pub open spec fn data_chunks_at(b: Seq<u8>, at: int) -> Seq<(u32, Seq<u8>)>
    decreases b.len() - at,
{
    if 0 <= at && at + 8 <= b.len() && tag_at(b, at, data_tag()) {
        let size = le_u32_at(b, at + 4);
        let start = at + 8;
        if start + size <= b.len() {
            seq![(size as u32, b.subrange(start, start + size))] + data_chunks_at(b, start + size)
        } else {
            seq![(size as u32, b.subrange(start, b.len() as int))]
        }
    } else {
        Seq::empty()
    }
}

/// The bytes of one sample of `bps` bits; zero where the width is not read.
pub open spec fn sample_width(bps: u16) -> nat {
    if bps == 8 {
        1
    } else if bps == 16 {
        2
    } else if bps == 24 {
        3
    } else {
        0
    }
}

/// The bytes of one inter-channel sample as it is read.
pub open spec fn frame_len(f: PCMWaveFormatChunk) -> nat {
    f.num_channels as nat * sample_width(f.bps)
}

/// The sample at `at`: unsigned for 8 bits, little-endian signed for 16 and
/// 24 bits.
pub open spec fn sample_at(b: Seq<u8>, at: int, bps: u16) -> int {
    if bps == 8 {
        b[at] as int
    } else if bps == 16 {
        le_i16_at(b, at)
    } else {
        le_i24_at(b, at)
    }
}

/// The inter-channel sample at `pos`, if a whole one is there.
pub open spec fn frame_at(b: Seq<u8>, pos: int, f: PCMWaveFormatChunk) -> Option<Seq<i64>> {
    if frame_len(f) == 0 || pos < 0 || pos + frame_len(f) > b.len() {
        None
    } else {
        Some(
            Seq::new(
                f.num_channels as nat,
                |c: int| sample_at(b, pos + c * sample_width(f.bps), f.bps) as i64,
            ),
        )
    }
}

/// Up to `k` inter-channel samples from `pos` on.
pub open spec fn frames_from(b: Seq<u8>, pos: int, f: PCMWaveFormatChunk, k: nat) -> Seq<
    Seq<i64>,
>
    decreases k,
{
    if k == 0 {
        Seq::empty()
    } else {
        match frame_at(b, pos, f) {
            None => Seq::empty(),
            Some(fr) => seq![fr] + frames_from(b, pos + frame_len(f), f, (k - 1) as nat),
        }
    }
}

/// A data chunk of a WAV file: its declared size, the format of its
/// samples, their bytes, and how many of those have been read (`pos`).
pub struct PCMWaveDataChunk {
    pub size_bytes: u32,
    pub format: PCMWaveFormatChunk,
    pub data: Vec<u8>,
    pub pos: usize,
}

/// Reads a data chunk's samples in batches of up to `chunk_size`
/// inter-channel samples.
pub struct PCMWaveDataChunkWindow {
    chunk_size: usize,
    data_chunk: PCMWaveDataChunk,
}

/// A PCM WAV file: its RIFF header, its format and its data chunks.
pub struct PCMWaveInfo {
    pub riff_header: RiffChunk,
    pub fmt_header: PCMWaveFormatChunk,
    pub data_chunks: Vec<PCMWaveDataChunk>,
}

/// Reads PCM WAV files.
pub struct WaveReader;

proof fn lemma_frames_push(b: Seq<u8>, p: int, f: PCMWaveFormatChunk, i: nat)
    requires
        frames_from(b, p, f, i).len() == i,
        frame_at(b, p + i * frame_len(f), f) is Some,
    ensures
        frames_from(b, p, f, i + 1) == frames_from(b, p, f, i).push(
            frame_at(b, p + i * frame_len(f), f)->Some_0,
        ),
    decreases i,
{
    let fl = frame_len(f);
    if i == 0 {
        assert(p + 0 * fl == p);
        assert(frames_from(b, p + fl, f, 0) =~= Seq::empty());
        assert(frames_from(b, p, f, 1) =~= frames_from(b, p, f, 0).push(frame_at(b, p, f)->Some_0));
    } else {
        assert(p + fl + (i - 1) * fl == p + i * fl) by (nonlinear_arith);
        lemma_frames_push(b, p + fl, f, (i - 1) as nat);
        assert(frames_from(b, p, f, i + 1) =~= frames_from(b, p, f, i).push(
            frame_at(b, p + i * fl, f)->Some_0,
        ));
    }
}

proof fn lemma_frames_stop(b: Seq<u8>, p: int, f: PCMWaveFormatChunk, i: nat, c: nat)
    requires
        frames_from(b, p, f, i).len() == i,
        frame_at(b, p + i * frame_len(f), f) is None,
    ensures
        frames_from(b, p, f, i + c) == frames_from(b, p, f, i),
    decreases i,
{
    let fl = frame_len(f);
    if i == 0 {
        assert(p + 0 * fl == p);
    } else {
        assert(p + fl + (i - 1) * fl == p + i * fl) by (nonlinear_arith);
        lemma_frames_stop(b, p + fl, f, (i - 1) as nat, c);
        assert((i + c - 1) as nat == ((i - 1) as nat + c) as nat);
    }
}

/// The data chunk holds the declared size and bytes, in format `f`, unread.
pub open spec fn chunk_matches(c: PCMWaveDataChunk, d: (u32, Seq<u8>), f: PCMWaveFormatChunk) -> bool {
    c.size_bytes == d.0 && c.data@ == d.1 && c.format == f && c.pos == 0
}

fn tag_matches(b: &[u8], at: usize, t0: u8, t1: u8, t2: u8, t3: u8) -> (r: bool)
    requires
        at + 4 <= b@.len(),
    ensures
        r == tag_at(b@, at as int, seq![t0, t1, t2, t3]),
{
    let r = b[at] == t0 && b[at + 1] == t1 && b[at + 2] == t2 && b[at + 3] == t3;
    assert(r == (b@.subrange(at as int, at + 4) =~= seq![t0, t1, t2, t3]));
    r
}

fn copy_bytes(b: &[u8], start: usize, end: usize) -> (r: Vec<u8>)
    requires
        start <= end <= b@.len(),
    ensures
        r@ == b@.subrange(start as int, end as int),
{
    let mut out: Vec<u8> = Vec::new();
    let mut i: usize = start;
    while i < end
        invariant
            start <= i <= end <= b@.len(),
            out@ == b@.subrange(start as int, i as int),
        decreases end - i,
    {
        out.push(b[i]);
        i = i + 1;
        assert(out@ =~= b@.subrange(start as int, i as int));
    }
    out
}

impl WaveReader {
    /// Reads the RIFF header at the start of `bytes`: the tag `RIFF` (file
    /// size little-endian) or `RIFX` (big-endian), the size, then `WAVE`.
    pub fn read_riff_chunk(bytes: &[u8]) -> (r: Result<RiffChunk, WaveReaderError>)
        ensures
            r == riff_result(bytes@),
    {
        if bytes.len() < 4 {
            return Err(WaveReaderError::ReadError);
        }
        let riff = tag_matches(bytes, 0, 0x52, 0x49, 0x46, 0x46);
        let rifx = tag_matches(bytes, 0, 0x52, 0x49, 0x46, 0x58);
        assert(seq![0x52u8, 0x49u8, 0x46u8, 0x46u8] =~= riff_tag());
        assert(seq![0x52u8, 0x49u8, 0x46u8, 0x58u8] =~= rifx_tag());
        if !riff && !rifx {
            return Err(WaveReaderError::NotRiffError);
        }
        if bytes.len() < 12 {
            return Err(WaveReaderError::ReadError);
        }
        let file_size = if rifx {
            read_be_u32(bytes, 4)
        } else {
            read_le_u32(bytes, 4)
        };
        assert(seq![0x57u8, 0x41u8, 0x56u8, 0x45u8] =~= wave_tag());
        if !tag_matches(bytes, 8, 0x57, 0x41, 0x56, 0x45) {
            return Err(WaveReaderError::NotWaveError);
        }
        Ok(RiffChunk { file_size, is_big_endian: rifx })
    }

    /// Reads the 24-byte format chunk at `at`: the tag `fmt `, its size, the
    /// format code (1 for PCM), channels, sample rate, byte rate, block
    /// alignment and bits per sample, all little-endian.
    pub fn read_fmt_chunk(bytes: &[u8], at: usize) -> (r: Result<PCMWaveFormatChunk, WaveReaderError>)
        requires
            at <= bytes@.len(),
        ensures
            r == fmt_result(bytes@, at as int),
    {
        let len = bytes.len();
        if len - at < 4 {
            return Err(WaveReaderError::ReadError);
        }
        assert(seq![0x66u8, 0x6du8, 0x74u8, 0x20u8] =~= fmt_tag());
        if !tag_matches(bytes, at, 0x66, 0x6d, 0x74, 0x20) {
            return Err(WaveReaderError::ChunkTypeError);
        }
        if len - at < 10 {
            return Err(WaveReaderError::ReadError);
        }
        if read_le_u16(bytes, at + 8) != 1 {
            return Err(WaveReaderError::NotPCMError);
        }
        if len - at < 24 {
            return Err(WaveReaderError::ReadError);
        }
        let num_channels = read_le_u16(bytes, at + 10);
        let samp_rate = read_le_u32(bytes, at + 12);
        let byte_rate = read_le_u32(bytes, at + 16);
        let block_align = read_le_u16(bytes, at + 20);
        let bps = read_le_u16(bytes, at + 22);
        let fmt = PCMWaveFormatChunk { num_channels, samp_rate, bps };
        assert(fmt == fmt_of(bytes@, at as int));
        let rate = fmt.exact_byte_rate();
        let align = fmt.exact_block_align();
        if byte_rate as u128 != rate || block_align as u32 != align {
            return Err(WaveReaderError::DataAlignmentError);
        }
        Ok(fmt)
    }

    /// Reads the data chunk at `at`: the tag `data`, its size in bytes, then
    /// as many of those bytes as are present.
    pub fn read_data_chunk(bytes: &[u8], at: usize, fmt_info: &PCMWaveFormatChunk) -> (r: Result<
        PCMWaveDataChunk,
        WaveReaderError,
    >)
        requires
            at <= bytes@.len(),
        ensures
            at + 8 > bytes@.len() ==> r == Err::<PCMWaveDataChunk, WaveReaderError>(
                WaveReaderError::ReadError,
            ),
            at + 8 <= bytes@.len() && !tag_at(bytes@, at as int, data_tag()) ==> r == Err::<
                PCMWaveDataChunk,
                WaveReaderError,
            >(WaveReaderError::ChunkTypeError),
            r is Ok <==> at + 8 <= bytes@.len() && tag_at(bytes@, at as int, data_tag()),
            r matches Ok(c) ==> chunk_matches(c, data_chunks_at(bytes@, at as int)[0], *fmt_info),
    {
        let len = bytes.len();
        if len - at < 8 {
            return Err(WaveReaderError::ReadError);
        }
        assert(seq![0x64u8, 0x61u8, 0x74u8, 0x61u8] =~= data_tag());
        if !tag_matches(bytes, at, 0x64, 0x61, 0x74, 0x61) {
            return Err(WaveReaderError::ChunkTypeError);
        }
        let size_bytes = read_le_u32(bytes, at + 4);
        let start = at + 8;
        let end = if (size_bytes as u64) <= (len - start) as u64 {
            start + size_bytes as usize
        } else {
            len
        };
        let data = copy_bytes(bytes, start, end);
        Ok(PCMWaveDataChunk { size_bytes, format: *fmt_info, data, pos: 0 })
    }

    /// Reads a PCM WAV file held in `bytes`: the RIFF header, the format
    /// chunk after it, then the data chunks up to the first that is not one.
    pub fn read_pcm(bytes: &[u8]) -> (r: Result<PCMWaveInfo, WaveReaderError>)
        ensures
            riff_result(bytes@) matches Err(e) ==> r == Err::<PCMWaveInfo, WaveReaderError>(e),
            riff_result(bytes@) is Ok ==> (fmt_result(bytes@, 12) matches Err(e) ==> r == Err::<
                PCMWaveInfo,
                WaveReaderError,
            >(e)),
            r is Ok <==> riff_result(bytes@) is Ok && fmt_result(bytes@, 12) is Ok,
            r matches Ok(info) ==> {
                let chunks = data_chunks_at(bytes@, 36);
                &&& Ok::<RiffChunk, WaveReaderError>(info.riff_header) == riff_result(bytes@)
                &&& Ok::<PCMWaveFormatChunk, WaveReaderError>(info.fmt_header) == fmt_result(
                    bytes@,
                    12,
                )
                &&& info.data_chunks@.len() == chunks.len()
                &&& forall|i: int|
                    0 <= i < chunks.len() ==> chunk_matches(
                        #[trigger] info.data_chunks@[i],
                        chunks[i],
                        info.fmt_header,
                    )
            },
    {
        let riff_header = match Self::read_riff_chunk(bytes) {
            Ok(h) => h,
            Err(e) => {
                return Err(e);
            },
        };
        let fmt_header = match Self::read_fmt_chunk(bytes, 12) {
            Ok(f) => f,
            Err(e) => {
                return Err(e);
            },
        };
        let ghost b = bytes@;
        let mut data_chunks: Vec<PCMWaveDataChunk> = Vec::new();
        let mut at: usize = 36;
        let mut more = true;
        while more
            invariant
                b == bytes@,
                at <= b.len(),
                more ==> data_chunks_at(b, 36) == data_chunks@.map_values(
                    |c: PCMWaveDataChunk| (c.size_bytes, c.data@),
                ) + data_chunks_at(b, at as int),
                !more ==> data_chunks_at(b, 36) == data_chunks@.map_values(
                    |c: PCMWaveDataChunk| (c.size_bytes, c.data@),
                ),
                forall|i: int|
                    0 <= i < data_chunks@.len() ==> (#[trigger] data_chunks@[i]).format == fmt_header
                        && data_chunks@[i].pos == 0,
            decreases b.len() - at + (if more {
                1int
            } else {
                0int
            }),
        {
            match Self::read_data_chunk(bytes, at, &fmt_header) {
                Ok(chunk) => {
                    let size = chunk.size_bytes as u64;
                    let room = (bytes.len() - at - 8) as u64;
                    let ghost old_chunks = data_chunks@;
                    let ghost here = at as int;
                    data_chunks.push(chunk);
                    assert(data_chunks@.map_values(|c: PCMWaveDataChunk| (c.size_bytes, c.data@))
                        =~= old_chunks.map_values(|c: PCMWaveDataChunk| (c.size_bytes, c.data@)).push(
                        data_chunks_at(b, here)[0],
                    ));
                    if size <= room {
                        at = at + 8 + size as usize;
                    } else {
                        more = false;
                    }
                },
                Err(_) => {
                    more = false;
                },
            }
        }
        assert(data_chunks@.len() == data_chunks@.map_values(
            |c: PCMWaveDataChunk| (c.size_bytes, c.data@),
        ).len());
        Ok(PCMWaveInfo { riff_header, fmt_header, data_chunks })
    }
}

impl PCMWaveDataChunk {
    /// Reads the next inter-channel sample; `None` at the end of the data.
    pub fn next(&mut self) -> (r: Option<Vec<i64>>)
        ensures
            final(self).data@ == old(self).data@,
            final(self).format == old(self).format,
            final(self).size_bytes == old(self).size_bytes,
            r is None <==> frame_at(old(self).data@, old(self).pos as int, old(self).format) is None,
            r matches Some(v) ==> frame_at(old(self).data@, old(self).pos as int, old(self).format)
                == Some(v@),
            r matches Some(v) ==> final(self).pos as int == old(self).pos as int + frame_len(
                old(self).format,
            ),
            r is None ==> final(self).pos == old(self).pos,
    {
        let f = self.format;
        let width: usize = if f.bps == 8 {
            1
        } else if f.bps == 16 {
            2
        } else if f.bps == 24 {
            3
        } else {
            0
        };
        let flen: usize = f.num_channels as usize * width;
        if flen == 0 || self.pos > self.data.len() || self.data.len() - self.pos < flen {
            return None;
        }
        let ghost fr = frame_at(self.data@, self.pos as int, f)->Some_0;
        let mut out: Vec<i64> = Vec::new();
        let mut c: usize = 0;
        while c < f.num_channels as usize
            invariant
                self.format == f,
                width == sample_width(f.bps),
                width > 0,
                flen == f.num_channels * width,
                self.pos + flen <= self.data.len(),
                fr == frame_at(self.data@, self.pos as int, f)->Some_0,
                c <= f.num_channels,
                out@ == fr.take(c as int),
            decreases f.num_channels - c,
        {
            proof {
                assert(c * width + width <= f.num_channels * width) by (nonlinear_arith)
                    requires
                        c < f.num_channels,
                ;
            }
            let at = self.pos + c * width;
            let x: i64 = if f.bps == 8 {
                self.data[at] as i64
            } else if f.bps == 16 {
                read_le_i16(self.data.as_slice(), at) as i64
            } else {
                read_le_i24(self.data.as_slice(), at) as i64
            };
            out.push(x);
            c = c + 1;
            assert(out@ =~= fr.take(c as int));
        }
        assert(out@ =~= fr);
        self.pos = self.pos + flen;
        Some(out)
    }

    /// Batches of one second: `byte_rate` inter-channel samples each.
    pub fn chunks_byte_rate(self) -> (r: PCMWaveDataChunkWindow)
        requires
            byte_rate_of(self.format) <= u32::MAX,
        ensures
            r.chunk_size() == byte_rate_of(self.format),
            r.data_chunk() == self,
    {
        let n = self.format.byte_rate() as usize;
        PCMWaveDataChunkWindow { chunk_size: n, data_chunk: self }
    }

    /// Batches of `chunk_size` inter-channel samples.
    pub fn chunks(self, chunk_size: usize) -> (r: PCMWaveDataChunkWindow)
        ensures
            r.chunk_size() == chunk_size,
            r.data_chunk() == self,
    {
        PCMWaveDataChunkWindow { chunk_size, data_chunk: self }
    }
}

impl PCMWaveDataChunkWindow {
    /// The most inter-channel samples in one batch.
    pub closed spec fn chunk_size(&self) -> nat {
        self.chunk_size as nat
    }

    /// The data chunk read.
    pub closed spec fn data_chunk(&self) -> PCMWaveDataChunk {
        self.data_chunk
    }

    /// Reads the next batch of up to `chunk_size` inter-channel samples; the
    /// last may be short, and `None` comes when none is left.
    pub fn next(&mut self) -> (r: Option<Vec<Vec<i64>>>)
        ensures
            ({
                let d = old(self).data_chunk();
                let fs = frames_from(d.data@, d.pos as int, d.format, old(self).chunk_size());
                &&& fs.len() == 0 <==> r is None
                &&& r matches Some(v) ==> v@.len() == fs.len() && forall|i: int|
                    0 <= i < fs.len() ==> (#[trigger] v@[i])@ == fs[i]
                &&& final(self).data_chunk().pos as int == d.pos as int + fs.len() * frame_len(
                    d.format,
                )
                &&& final(self).data_chunk().data@ == d.data@
                &&& final(self).data_chunk().format == d.format
                &&& final(self).chunk_size() == old(self).chunk_size()
            }),
    {
        let ghost d0 = self.data_chunk;
        let ghost k = self.chunk_size as nat;
        let ghost fl = frame_len(d0.format);
        let mut out: Vec<Vec<i64>> = Vec::new();
        let mut i: usize = 0;
        let mut done = false;
        while i < self.chunk_size && !done
            invariant
                i <= self.chunk_size,
                self.chunk_size == k,
                fl == frame_len(d0.format),
                self.data_chunk.data@ == d0.data@,
                self.data_chunk.format == d0.format,
                self.data_chunk.size_bytes == d0.size_bytes,
                out@.len() == i,
                self.data_chunk.pos as int == d0.pos as int + i * fl,
                frames_from(d0.data@, d0.pos as int, d0.format, i as nat).len() == i,
                done ==> frame_at(d0.data@, d0.pos as int + i * fl, d0.format) is None,
                forall|j: int|
                    0 <= j < i ==> (#[trigger] out@[j])@ == frames_from(
                        d0.data@,
                        d0.pos as int,
                        d0.format,
                        i as nat,
                    )[j],
            decreases k - i + (if done {
                0int
            } else {
                1int
            }),
        {
            match self.data_chunk.next() {
                Some(frame) => {
                    proof {
                        lemma_frames_push(d0.data@, d0.pos as int, d0.format, i as nat);
                        assert(d0.pos as int + i * fl + fl == d0.pos as int + (i + 1) * fl)
                            by (nonlinear_arith);
                    }
                    out.push(frame);
                    i = i + 1;
                },
                None => {
                    done = true;
                },
            }
        }
        proof {
            if done {
                lemma_frames_stop(d0.data@, d0.pos as int, d0.format, i as nat, (k - i) as nat);
            }
            assert(frames_from(d0.data@, d0.pos as int, d0.format, k) == frames_from(
                d0.data@,
                d0.pos as int,
                d0.format,
                i as nat,
            ));
        }
        if out.len() == 0 {
            None
        } else {
            Some(out)
        }
    }
}

} // verus!
