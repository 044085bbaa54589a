//! WAV files: reading the formats a reference recording comes in, writing the
//! one the engine produces.

use crate::error::{ErrorView, TtsError};
use crate::text::{decimal, digits};
use vstd::prelude::*;

verus! {

/// The highest sample rate a file may have.
pub const MAX_SAMPLE_RATE: u32 = 384_000;

/// Integer samples.
pub const WAVE_FORMAT_PCM: u16 = 1;

/// IEEE 754 samples.
pub const WAVE_FORMAT_IEEE_FLOAT: u16 = 3;

/// The format tag proper stands further back in the chunk.
pub const WAVE_FORMAT_EXTENSIBLE: u16 = 0xFFFE;

/// The letters `RIFF`, as a little-endian number.
pub const TAG_RIFF: u32 = 0x4646_4952;

/// The letters `WAVE`, as a little-endian number.
pub const TAG_WAVE: u32 = 0x4556_4157;

/// The letters `fmt` and a space, as a little-endian number.
pub const TAG_FMT: u32 = 0x2074_6d66;

/// The letters `data`, as a little-endian number.
pub const TAG_DATA: u32 = 0x6174_6164;

/// The 16-bit little-endian number at `p`.
pub open spec fn le16(d: Seq<u8>, p: int) -> nat {
    (d[p] + 256 * d[p + 1]) as nat
}

/// The 32-bit little-endian number at `p`.
pub open spec fn le32(d: Seq<u8>, p: int) -> nat {
    (d[p] + 256 * d[p + 1] + 65536 * d[p + 2] + 16777216 * d[p + 3]) as nat
}

/// The 16-bit little-endian number at `p`.
pub fn u16_at(d: &[u8], p: usize) -> (r: u16)
    requires
        p + 2 <= d.len(),
    ensures
        r == le16(d@, p as int),
{
    d[p] as u16 + d[p + 1] as u16 * 256
}

/// The 32-bit little-endian number at `p`.
pub fn u32_at(d: &[u8], p: usize) -> (r: u32)
    requires
        p + 4 <= d.len(),
    ensures
        r == le32(d@, p as int),
{
    d[p] as u32 + d[p + 1] as u32 * 256 + d[p + 2] as u32 * 65536 + d[p + 3] as u32 * 16777216
}

/// What a `fmt ` chunk says.
#[derive(Clone, Copy, PartialEq, Eq, Debug, Structural)]
pub struct Fmt {
    pub format: u16,
    pub channels: usize,
    pub rate: u32,
    pub bits: usize,
}

/// A `BadWav` error.
pub open spec fn bad_wav(path: Seq<char>, detail: Seq<char>) -> ErrorView {
    ErrorView::BadWav { path, detail }
}

fn bad(path: &str, detail: &str) -> (r: TtsError)
    ensures
        r@ == bad_wav(path@, detail@),
{
    TtsError::BadWav { path: path.to_string(), detail: detail.to_string() }
}

/// How a `fmt ` chunk with the content `body` reads.
pub open spec fn fmt_of(path: Seq<char>, body: Seq<u8>) -> Result<Fmt, ErrorView> {
    if body.len() < 16 {
        Err(bad_wav(path, "truncated fmt chunk"@))
    } else if le16(body, 0) == WAVE_FORMAT_EXTENSIBLE && body.len() < 26 {
        Err(bad_wav(path, "truncated extensible fmt chunk"@))
    } else {
        let tag = if le16(body, 0) == WAVE_FORMAT_EXTENSIBLE {
            le16(body, 24)
        } else {
            le16(body, 0)
        };
        Ok(
            Fmt {
                format: tag as u16,
                channels: le16(body, 2) as usize,
                rate: le32(body, 4) as u32,
                bits: le16(body, 14) as usize,
            },
        )
    }
}

/// Reads the content of a `fmt ` chunk.
pub fn parse_fmt(path: &str, body: &[u8]) -> (r: Result<Fmt, TtsError>)
    ensures
        match r {
            Ok(f) => fmt_of(path@, body@) == Ok::<Fmt, ErrorView>(f),
            Err(e) => fmt_of(path@, body@) == Err::<Fmt, ErrorView>(e@),
        },
{
    if body.len() < 16 {
        return Err(bad(path, "truncated fmt chunk"));
    }
    let mut format: u16 = u16_at(body, 0);
    if format == WAVE_FORMAT_EXTENSIBLE {
        if body.len() < 26 {
            return Err(bad(path, "truncated extensible fmt chunk"));
        }
        format = u16_at(body, 24);
    }
    Ok(
        Fmt {
            format,
            channels: u16_at(body, 2) as usize,
            rate: u32_at(body, 4),
            bits: u16_at(body, 14) as usize,
        },
    )
}

/// What a walk over the chunks has found: the last format and where the last
/// run of sample bytes starts and how long it is.
pub struct Found {
    pub fmt: Option<Fmt>,
    pub dat: Option<(int, int)>,
}

/// Walks over the chunks from `pos` on. A chunk takes up an even number of
/// bytes; what is left behind the last whole chunk header is ignored.
pub open spec fn walk(path: Seq<char>, d: Seq<u8>, pos: int, found: Found) -> Result<
    Found,
    ErrorView,
>
    decreases
            if pos < d.len() {
                d.len() - pos
            } else {
                0
            },
{
    if pos < 0 || pos + 8 > d.len() {
        Ok(found)
    } else {
        let size = le32(d, pos + 4) as int;
        let body = pos + 8;
        let next = body + size + size % 2;
        if le32(d, pos) == TAG_FMT {
            if body + size > d.len() {
                Err(bad_wav(path, "truncated fmt chunk"@))
            } else {
                match fmt_of(path, d.subrange(body, body + size)) {
                    Err(e) => Err(e),
                    Ok(f) => walk(path, d, next, Found { fmt: Some(f), dat: found.dat }),
                }
            }
        } else if le32(d, pos) == TAG_DATA {
            if body + size > d.len() {
                Err(bad_wav(path, "truncated data chunk"@))
            } else {
                walk(path, d, next, Found { fmt: found.fmt, dat: Some((body, size)) })
            }
        } else {
            walk(path, d, next, found)
        }
    }
}

/// The value of the `bits`-wide integer sample at `p`, in two's complement.
pub open spec fn pcm_at(d: Seq<u8>, p: int, bits: int) -> int {
    if bits == 16 {
        let v = le16(d, p) as int;
        if v < 0x8000 {
            v
        } else {
            v - 0x1_0000
        }
    } else if bits == 24 {
        let v = d[p] + 256 * d[p + 1] + 65536 * d[p + 2];
        if v < 0x80_0000 {
            v
        } else {
            v - 0x100_0000
        }
    } else {
        let v = le32(d, p) as int;
        if v < 0x8000_0000 {
            v
        } else {
            v - 0x1_0000_0000
        }
    }
}

/// The sum of `n` integer samples that follow one another from `p` on.
pub open spec fn pcm_sum(d: Seq<u8>, p: int, bits: int, n: nat) -> int
    decreases n,
{
    if n == 0 {
        0
    } else {
        pcm_sum(d, p, bits, (n - 1) as nat) + pcm_at(d, p + (n - 1) * (bits / 8), bits)
    }
}

/// The samples of a file, still exact.
#[derive(Debug)]
pub enum WavSamples {
    /// For each frame, the sum over the channels of integer samples whose full
    /// scale is 2 to the power of `bits - 1`.
    Pcm { sums: Vec<i64>, bits: usize },
    /// The bit patterns of single-precision samples, channel by channel within
    /// each frame.
    Float { words: Vec<u32> },
}

/// A file that was read: a mono sample is the mean over `channels`.
#[derive(Debug)]
pub struct Wav {
    pub samples: WavSamples,
    pub channels: usize,
    pub rate: u32,
}

/// The samples of a file as sequences.
pub enum SamplesView {
    Pcm { sums: Seq<int>, bits: int },
    Float { words: Seq<u32> },
}

/// A file that was read, as a mathematical value.
pub struct WavView {
    pub samples: SamplesView,
    pub channels: int,
    pub rate: u32,
}

impl View for Wav {
    type V = WavView;

    open spec fn view(&self) -> WavView {
        WavView {
            samples: match self.samples {
                WavSamples::Pcm { sums, bits } => SamplesView::Pcm {
                    sums: sums@.map_values(|v: i64| v as int),
                    bits: bits as int,
                },
                WavSamples::Float { words } => SamplesView::Float { words: words@ },
            },
            channels: self.channels as int,
            rate: self.rate,
        }
    }
}

/// Whether a format tag and a sample width can be read.
pub open spec fn readable(format: u16, bits: int) -> bool {
    ||| format == WAVE_FORMAT_PCM && (bits == 16 || bits == 24 || bits == 32)
    ||| format == WAVE_FORMAT_IEEE_FLOAT && bits == 32
}

/// The frames of a file whose chunks were found.
pub open spec fn frames_of(d: Seq<u8>, f: Fmt, start: int, n: int) -> WavView {
    let width = f.bits as int / 8;
    let ch = f.channels as int;
    WavView {
        samples: if f.format == WAVE_FORMAT_PCM {
            SamplesView::Pcm {
                sums: Seq::new(
                    n as nat,
                    |i: int| pcm_sum(d, start + i * ch * width, f.bits as int, ch as nat),
                ),
                bits: f.bits as int,
            }
        } else {
            SamplesView::Float {
                words: Seq::new((n * ch) as nat, |i: int| le32(d, start + i * width) as u32),
            }
        },
        channels: ch,
        rate: f.rate,
    }
}

/// What stands in a file with the bytes `d`, or why it cannot be read.
pub open spec fn wav_of(path: Seq<char>, d: Seq<u8>) -> Result<WavView, ErrorView> {
    if d.len() < 12 || le32(d, 0) != TAG_RIFF || le32(d, 8) != TAG_WAVE {
        Err(bad_wav(path, "not a RIFF/WAVE file"@))
    } else {
        match walk(path, d, 12, Found { fmt: None, dat: None }) {
            Err(e) => Err(e),
            Ok(found) => match (found.fmt, found.dat) {
                (None, _) => Err(bad_wav(path, "no fmt chunk"@)),
                (_, None) => Err(bad_wav(path, "no data chunk"@)),
                (Some(f), Some((start, len))) => if f.channels == 0 {
                    Err(bad_wav(path, "zero channels"@))
                } else if !readable(f.format, f.bits as int) {
                    Err(
                        ErrorView::UnsupportedWav {
                            path,
                            detail: "format tag "@ + digits(f.format as nat) + ", "@ + digits(
                                f.bits as nat,
                            ) + "-bit"@,
                        },
                    )
                } else if f.rate == 0 || f.rate > MAX_SAMPLE_RATE {
                    Err(ErrorView::BadSampleRate { path, rate: f.rate })
                } else {
                    let n = len / (f.bits as int / 8 * f.channels as int);
                    if n == 0 {
                        Err(bad_wav(path, "no samples"@))
                    } else {
                        Ok(frames_of(d, f, start, n))
                    }
                },
            },
        }
    }
}

fn pcm_sample(d: &[u8], p: usize, bits: usize) -> (r: i64)
    requires
        bits == 16 || bits == 24 || bits == 32,
        p + bits / 8 <= d.len(),
    ensures
        r == pcm_at(d@, p as int, bits as int),
        -0x8000_0000 <= r < 0x8000_0000,
{
    if bits == 16 {
        let v: i64 = u16_at(d, p) as i64;
        if v < 0x8000 {
            v
        } else {
            v - 0x1_0000
        }
    } else if bits == 24 {
        let v: i64 = d[p] as i64 + d[p + 1] as i64 * 256 + d[p + 2] as i64 * 65536;
        if v < 0x80_0000 {
            v
        } else {
            v - 0x100_0000
        }
    } else {
        let v: i64 = u32_at(d, p) as i64;
        if v < 0x8000_0000 {
            v
        } else {
            v - 0x1_0000_0000
        }
    }
}

fn frame_sum(d: &[u8], p: usize, bits: usize, channels: usize) -> (r: i64)
    requires
        bits == 16 || bits == 24 || bits == 32,
        channels <= 0xffff,
        p + channels * (bits / 8) <= d.len(),
    ensures
        r == pcm_sum(d@, p as int, bits as int, channels as nat),
{
    let width: usize = bits / 8;
    let mut sum: i64 = 0;
    let mut at: usize = p;
    let mut c: usize = 0;
    while c < channels
        invariant
            bits == 16 || bits == 24 || bits == 32,
            width == bits / 8,
            c <= channels <= 0xffff,
            at == p + c * width,
            p + channels * width <= d.len(),
            sum == pcm_sum(d@, p as int, bits as int, c as nat),
            -0x8000_0000 * c <= sum <= 0x8000_0000 * c,
        decreases channels - c,
    {
        assert((c + 1) * width <= channels * width && (c + 1) * width == c * width + width)
            by (nonlinear_arith)
            requires
                c + 1 <= channels,
                width >= 0,
        ;
        sum = sum + pcm_sample(d, at, bits);
        at = at + width;
        c = c + 1;
    }
    sum
}

fn pcm_frames(d: &[u8], start: usize, f: &Fmt, n: usize) -> (r: Vec<i64>)
    requires
        f.bits == 16 || f.bits == 24 || f.bits == 32,
        f.channels <= 0xffff,
        start + n * (f.channels * (f.bits as int / 8)) <= d.len(),
    ensures
        r@.map_values(|v: i64| v as int) =~= Seq::new(
            n as nat,
            |i: int|
                pcm_sum(
                    d@,
                    start + i * f.channels as int * (f.bits as int / 8),
                    f.bits as int,
                    f.channels as nat,
                ),
        ),
{
    assert(0 <= f.channels * (f.bits / 8) <= 0xffff * 4) by (nonlinear_arith)
        requires
            f.channels <= 0xffff,
            f.bits / 8 <= 4,
    ;
    let block: usize = f.channels * (f.bits / 8);
    let mut out: Vec<i64> = Vec::new();
    let mut at: usize = start;
    let mut i: usize = 0;
    while i < n
        invariant
            f.bits == 16 || f.bits == 24 || f.bits == 32,
            f.channels <= 0xffff,
            block == f.channels * (f.bits as int / 8),
            i <= n,
            at == start + i * block,
            start + n * block <= d.len(),
            out.len() == i,
            forall|k: int|
                0 <= k < i ==> #[trigger] out[k] == pcm_sum(
                    d@,
                    start + k * f.channels as int * (f.bits as int / 8),
                    f.bits as int,
                    f.channels as nat,
                ),
        decreases n - i,
    {
        assert((i + 1) * block <= n * block && (i + 1) * block == i * block + block)
            by (nonlinear_arith)
            requires
                i + 1 <= n,
                block >= 0,
        ;
        assert(i * block == i * f.channels as int * (f.bits as int / 8)) by (nonlinear_arith)
            requires
                block == f.channels * (f.bits as int / 8),
        ;
        out.push(frame_sum(d, at, f.bits, f.channels));
        at = at + block;
        i = i + 1;
    }
    out
}

fn float_words(d: &[u8], start: usize, n: usize) -> (r: Vec<u32>)
    requires
        start + n * 4 <= d.len(),
    ensures
        r@ =~= Seq::new(n as nat, |i: int| le32(d@, start + i * 4) as u32),
{
    let mut out: Vec<u32> = Vec::new();
    let mut i: usize = 0;
    while i < n
        invariant
            i <= n,
            start + n * 4 <= d.len(),
            out.len() == i,
            forall|k: int| 0 <= k < i ==> #[trigger] out[k] == le32(d@, start + k * 4),
        decreases n - i,
    {
        out.push(u32_at(d, start + i * 4));
        i = i + 1;
    }
    out
}

/// The result of a chunk walk in machine integers.
struct Chunks {
    fmt: Option<Fmt>,
    dat: Option<(usize, usize)>,
}

impl View for Chunks {
    type V = Found;

    closed spec fn view(&self) -> Found {
        Found {
            fmt: self.fmt,
            dat: match self.dat {
                None => None,
                Some((s, n)) => Some((s as int, n as int)),
            },
        }
    }
}

fn walk_chunks(path: &str, d: &[u8]) -> (r: Result<Chunks, TtsError>)
    requires
        d.len() >= 12,
    ensures
        match r {
            Ok(c) => {
                &&& walk(path@, d@, 12, Found { fmt: None, dat: None }) == Ok::<Found, ErrorView>(
                    c@,
                )
                &&& c.fmt matches Some(f) ==> f.channels <= 0xffff && f.bits <= 0xffff
                &&& c.dat matches Some((s, n)) ==> s + n <= d.len()
            },
            Err(e) => walk(path@, d@, 12, Found { fmt: None, dat: None }) == Err::<
                Found,
                ErrorView,
            >(e@),
        },
{
    let mut found: Chunks = Chunks { fmt: None, dat: None };
    let mut pos: usize = 12;
    while pos <= d.len() && d.len() - pos >= 8
        invariant
            0 <= pos <= d.len(),
            walk(path@, d@, 12, Found { fmt: None, dat: None }) == walk(
                path@,
                d@,
                pos as int,
                found@,
            ),
            found.fmt matches Some(f) ==> f.channels <= 0xffff && f.bits <= 0xffff,
            found.dat matches Some((s, n)) ==> s + n <= d.len(),
        decreases d.len() - pos,
    {
        let ghost before: Found = found@;
        let tag: u32 = u32_at(d, pos);
        let size: u32 = u32_at(d, pos + 4);
        let body: usize = pos + 8;
        let room: usize = d.len() - body;
        if tag == TAG_FMT {
            if size as usize > room {
                return Err(bad(path, "truncated fmt chunk"));
            }
            let content: &[u8] = vstd::slice::slice_subrange(d, body, body + size as usize);
            match parse_fmt(path, content) {
                Ok(f) => {
                    found.fmt = Some(f);
                },
                Err(e) => {
                    return Err(e);
                },
            }
        } else if tag == TAG_DATA {
            if size as usize > room {
                return Err(bad(path, "truncated data chunk"));
            }
            found.dat = Some((body, size as usize));
        }
        let step: u64 = size as u64 + (size % 2) as u64;
        assert(walk(path@, d@, pos as int, before) == walk(path@, d@, body + step, found@));
        if step > room as u64 {
            pos = d.len();
        } else {
            pos = body + step as usize;
        }
    }
    Ok(found)
}

/// Reads a WAV file's bytes (PCM 16/24/32-bit integer, 32-bit float). `path`
/// only names the file in errors.
pub fn load_wav(path: &str, d: &[u8]) -> (r: Result<Wav, TtsError>)
    ensures
        match r {
            Ok(w) => wav_of(path@, d@) == Ok::<WavView, ErrorView>(w@),
            Err(e) => wav_of(path@, d@) == Err::<WavView, ErrorView>(e@),
        },
{
    if d.len() < 12 || u32_at(d, 0) != TAG_RIFF || u32_at(d, 8) != TAG_WAVE {
        return Err(bad(path, "not a RIFF/WAVE file"));
    }
    let found: Chunks = walk_chunks(path, d)?;
    let f: Fmt = match found.fmt {
        Some(f) => f,
        None => {
            return Err(bad(path, "no fmt chunk"));
        },
    };
    let (start, len): (usize, usize) = match found.dat {
        Some(p) => p,
        None => {
            return Err(bad(path, "no data chunk"));
        },
    };
    if f.channels == 0 {
        return Err(bad(path, "zero channels"));
    }
    let pcm: bool = f.format == WAVE_FORMAT_PCM;
    let supported: bool = (pcm && (f.bits == 16 || f.bits == 24 || f.bits == 32)) || (f.format
        == WAVE_FORMAT_IEEE_FLOAT && f.bits == 32);
    if !supported {
        let detail: String = "format tag ".to_string().concat(
            decimal(f.format as u64).as_str(),
        ).concat(", ").concat(decimal(f.bits as u64).as_str()).concat("-bit");
        return Err(TtsError::UnsupportedWav { path: path.to_string(), detail });
    }
    if f.rate == 0 || f.rate > MAX_SAMPLE_RATE {
        return Err(TtsError::BadSampleRate { path: path.to_string(), rate: f.rate });
    }
    let width: usize = f.bits / 8;
    assert(0 < width * f.channels <= 4 * 0xffff) by (nonlinear_arith)
        requires
            0 < width <= 4,
            0 < f.channels <= 0xffff,
    ;
    let block: usize = width * f.channels;
    let n: usize = len / block;
    if n == 0 {
        return Err(bad(path, "no samples"));
    }
    assert(n * block <= len) by (nonlinear_arith)
        requires
            n == len / block,
            block > 0,
    ;
    assert(n * block == n * (f.channels * width)) by (nonlinear_arith)
        requires
            block == width * f.channels,
    ;
    let samples: WavSamples = if pcm {
        let sums: Vec<i64> = pcm_frames(d, start, &f, n);
        WavSamples::Pcm { sums, bits: f.bits }
    } else {
        assert(0 <= n * f.channels && n * f.channels * 4 == n * block) by (nonlinear_arith)
            requires
                block == 4 * f.channels,
        ;
        let words: Vec<u32> = float_words(d, start, n * f.channels);
        WavSamples::Float { words }
    };
    Ok(Wav { samples, channels: f.channels, rate: f.rate })
}

/// The two bytes of a 16-bit number, low byte first.
pub open spec fn bytes16(v: nat) -> Seq<u8> {
    seq![(v % 256) as u8, (v / 256 % 256) as u8]
}

/// The four bytes of a 32-bit number, low byte first.
pub open spec fn bytes32(v: nat) -> Seq<u8> {
    seq![
        (v % 256) as u8,
        (v / 256 % 256) as u8,
        (v / 65536 % 256) as u8,
        (v / 16777216 % 256) as u8,
    ]
}

/// A sample as an unsigned 16-bit number, in two's complement.
pub open spec fn word16(s: i16) -> nat {
    if s < 0 {
        (s + 0x1_0000) as nat
    } else {
        s as nat
    }
}

/// The length in bytes of `n` samples, as the 32-bit header field holds it.
pub open spec fn data_bytes(n: nat) -> nat {
    2 * n % 0x1_0000_0000
}

/// The header of a mono 16-bit file at 24 kHz with `n` samples.
pub open spec fn wav_header(n: nat) -> Seq<u8> {
    bytes32(TAG_RIFF as nat) + bytes32(36 + data_bytes(n)) + bytes32(TAG_WAVE as nat) + bytes32(
        TAG_FMT as nat,
    ) + bytes32(16) + bytes16(1) + bytes16(1) + bytes32(24_000) + bytes32(48_000) + bytes16(2)
        + bytes16(16) + bytes32(TAG_DATA as nat) + bytes32(data_bytes(n))
}

/// The bytes of 16-bit samples.
pub open spec fn sample_bytes(s: Seq<i16>) -> Seq<u8>
    decreases s.len(),
{
    if s.len() == 0 {
        Seq::empty()
    } else {
        sample_bytes(s.drop_last()) + bytes16(word16(s.last()))
    }
}

/// The bytes of a mono 16-bit file at 24 kHz.
pub open spec fn wav_bytes(s: Seq<i16>) -> Seq<u8> {
    wav_header(s.len()) + sample_bytes(s)
}

fn put16(b: &mut Vec<u8>, v: u16)
    ensures
        final(b)@ == old(b)@ + bytes16(v as nat),
{
    b.push((v % 256) as u8);
    b.push((v / 256) as u8);
    assert(b@ =~= old(b)@ + bytes16(v as nat));
}

fn put32(b: &mut Vec<u8>, v: u32)
    ensures
        final(b)@ == old(b)@ + bytes32(v as nat),
{
    b.push((v % 256) as u8);
    b.push((v / 256 % 256) as u8);
    b.push((v / 65536 % 256) as u8);
    b.push((v / 16777216) as u8);
    assert(b@ =~= old(b)@ + bytes32(v as nat));
}

/// The bytes of a mono 16-bit WAV file at 24 kHz.
pub fn write_wav_24k(samples: &[i16]) -> (r: Vec<u8>)
    requires
        36 + data_bytes(samples.len() as nat) <= u32::MAX,
    ensures
        r@ == wav_bytes(samples@),
{
    let length: u32 = (samples.len() as u128 * 2 % 0x1_0000_0000) as u32;
    let mut b: Vec<u8> = Vec::new();
    put32(&mut b, TAG_RIFF);
    put32(&mut b, 36 + length);
    put32(&mut b, TAG_WAVE);
    put32(&mut b, TAG_FMT);
    put32(&mut b, 16);
    put16(&mut b, 1);
    put16(&mut b, 1);
    put32(&mut b, 24_000);
    put32(&mut b, 48_000);
    put16(&mut b, 2);
    put16(&mut b, 16);
    put32(&mut b, TAG_DATA);
    put32(&mut b, length);
    assert(b@ =~= wav_header(samples.len() as nat));
    let mut i: usize = 0;
    while i < samples.len()
        invariant
            i <= samples.len(),
            b@ == wav_header(samples.len() as nat) + sample_bytes(samples@.take(i as int)),
        decreases samples.len() - i,
    {
        let v: i32 = samples[i] as i32;
        let word: u16 = if v < 0 {
            (v + 0x1_0000) as u16
        } else {
            v as u16
        };
        let ghost before: Seq<u8> = b@;
        put16(&mut b, word);
        proof {
            let t = samples@.take(i as int + 1);
            assert(t.drop_last() =~= samples@.take(i as int));
            assert(b@ =~= wav_header(samples.len() as nat) + (sample_bytes(
                samples@.take(i as int),
            ) + bytes16(word16(t.last()))));
        }
        i = i + 1;
    }
    assert(samples@.take(i as int) =~= samples@);
    b
}

proof fn lemma_bytes16(d: Seq<u8>, p: int, v: nat)
    requires
        v < 0x1_0000,
        0 <= p,
        p + 2 <= d.len(),
        d.subrange(p, p + 2) == bytes16(v),
    ensures
        le16(d, p) == v,
{
    let t = d.subrange(p, p + 2);
    assert(d[p] == t[0] && d[p + 1] == t[1]);
}

proof fn lemma_bytes32(d: Seq<u8>, p: int, v: nat)
    requires
        v < 0x1_0000_0000,
        0 <= p,
        p + 4 <= d.len(),
        d.subrange(p, p + 4) == bytes32(v),
    ensures
        le32(d, p) == v,
{
    let t = d.subrange(p, p + 4);
    assert(d[p] == t[0] && d[p + 1] == t[1] && d[p + 2] == t[2] && d[p + 3] == t[3]);
    assert(v == v % 256 + 256 * (v / 256 % 256) + 65536 * (v / 65536 % 256) + 16777216 * (v
        / 16777216 % 256));
}

proof fn lemma_sample_bytes(s: Seq<i16>)
    ensures
        sample_bytes(s).len() == 2 * s.len(),
        forall|i: int|
            0 <= i < s.len() ==> sample_bytes(s).subrange(2 * i, 2 * i + 2) == bytes16(
                word16(#[trigger] s[i]),
            ),
    decreases s.len(),
{
    if s.len() > 0 {
        let t = s.drop_last();
        lemma_sample_bytes(t);
        assert forall|i: int| 0 <= i < s.len() implies sample_bytes(s).subrange(2 * i, 2 * i + 2)
            == bytes16(word16(#[trigger] s[i])) by {
            let part = sample_bytes(s).subrange(2 * i, 2 * i + 2);
            if i < t.len() {
                assert(s[i] == t[i]);
                assert(part =~= sample_bytes(t).subrange(2 * i, 2 * i + 2));
            } else {
                assert(part =~= bytes16(word16(s[i])));
            }
        }
    }
}

/// The fields of the header, each at its place.
proof fn lemma_header(d: Seq<u8>, n: nat)
    requires
        36 + 2 * n <= u32::MAX,
        d.len() >= 44,
        d.take(44) == wav_header(n),
    ensures
        le32(d, 0) == TAG_RIFF,
        le32(d, 8) == TAG_WAVE,
        le32(d, 12) == TAG_FMT,
        le32(d, 16) == 16,
        le16(d, 20) == 1,
        le16(d, 22) == 1,
        le32(d, 24) == 24_000,
        le16(d, 34) == 16,
        le32(d, 36) == TAG_DATA,
        le32(d, 40) == 2 * n,
{
    let h = wav_header(n);
    assert(h.len() == 44);
    assert forall|p: int, w: int| 0 <= p && 0 <= w && p + w <= 44 implies #[trigger] d.subrange(
        p,
        p + w,
    ) == h.subrange(p, p + w) by {
        assert(d.subrange(p, p + w) =~= d.take(44).subrange(p, p + w));
    }
    assert(d.subrange(0, 4) =~= bytes32(TAG_RIFF as nat));
    lemma_bytes32(d, 0, TAG_RIFF as nat);
    assert(d.subrange(8, 12) =~= bytes32(TAG_WAVE as nat));
    lemma_bytes32(d, 8, TAG_WAVE as nat);
    assert(d.subrange(12, 16) =~= bytes32(TAG_FMT as nat));
    lemma_bytes32(d, 12, TAG_FMT as nat);
    assert(d.subrange(16, 20) =~= bytes32(16));
    lemma_bytes32(d, 16, 16);
    assert(d.subrange(20, 22) =~= bytes16(1));
    lemma_bytes16(d, 20, 1);
    assert(d.subrange(22, 24) =~= bytes16(1));
    lemma_bytes16(d, 22, 1);
    assert(d.subrange(24, 28) =~= bytes32(24_000));
    lemma_bytes32(d, 24, 24_000);
    assert(d.subrange(34, 36) =~= bytes16(16));
    lemma_bytes16(d, 34, 16);
    assert(d.subrange(36, 40) =~= bytes32(TAG_DATA as nat));
    lemma_bytes32(d, 36, TAG_DATA as nat);
    assert(d.subrange(40, 44) =~= bytes32(2 * n));
    lemma_bytes32(d, 40, 2 * n);
}

/// The walk over a file with the header of `n` samples.
proof fn lemma_written_walk(path: Seq<char>, d: Seq<u8>, n: nat)
    requires
        36 + 2 * n <= u32::MAX,
        d.len() == 44 + 2 * n,
        d.take(44) == wav_header(n),
    ensures
        walk(path, d, 12, Found { fmt: None, dat: None }) == Ok::<Found, ErrorView>(
            Found {
                fmt: Some(Fmt { format: 1, channels: 1, rate: 24_000, bits: 16 }),
                dat: Some((44, 2 * n as int)),
            },
        ),
        le32(d, 0) == TAG_RIFF,
        le32(d, 8) == TAG_WAVE,
{
    lemma_header(d, n);
    let body = d.subrange(20, 36);
    assert(le16(body, 0) == le16(d, 20));
    assert(le16(body, 2) == le16(d, 22));
    assert(le32(body, 4) == le32(d, 24));
    assert(le16(body, 14) == le16(d, 34));
    let f = Fmt { format: 1, channels: 1, rate: 24_000, bits: 16 };
    assert(fmt_of(path, body) == Ok::<Fmt, ErrorView>(f));
    let found0 = Found { fmt: None, dat: None };
    let found1 = Found { fmt: Some(f), dat: None };
    let found2 = Found { fmt: Some(f), dat: Some((44, 2 * n as int)) };
    assert(walk(path, d, 44 + 2 * n as int, found2) == Ok::<Found, ErrorView>(found2));
    assert(walk(path, d, 36, found1) == walk(path, d, 44 + 2 * n as int, found2));
    assert(walk(path, d, 12, found0) == walk(path, d, 36, found1));
}

/// One written sample, read back.
proof fn lemma_written_sample(d: Seq<u8>, p: int, v: i16)
    requires
        0 <= p,
        p + 2 <= d.len(),
        d.subrange(p, p + 2) == bytes16(word16(v)),
    ensures
        pcm_sum(d, p, 16, 1) == v as int,
{
    lemma_bytes16(d, p, word16(v));
    assert(pcm_sum(d, p, 16, 0) == 0);
    assert(pcm_sum(d, p, 16, 1) == pcm_at(d, p, 16));
}

/// The shape of a written file: a header of 44 bytes, then two for each sample.
proof fn lemma_written_shape(s: Seq<i16>)
    ensures
        wav_bytes(s).len() == 44 + 2 * s.len(),
        wav_bytes(s).take(44) == wav_header(s.len()),
{
    lemma_sample_bytes(s);
    assert(wav_header(s.len()).len() == 44);
    assert(wav_bytes(s).take(44) =~= wav_header(s.len()));
}

/// The samples of a written file, each read back.
proof fn lemma_written_sums(s: Seq<i16>, i: int)
    requires
        0 <= i < s.len(),
    ensures
        pcm_sum(wav_bytes(s), 44 + 2 * i, 16, 1) == s[i] as int,
{
    let d = wav_bytes(s);
    let p = 44 + 2 * i;
    lemma_sample_bytes(s);
    lemma_written_shape(s);
    assert(wav_header(s.len()).len() == 44);
    assert(d.subrange(p, p + 2) =~= sample_bytes(s).subrange(2 * i, 2 * i + 2));
    lemma_written_sample(d, p, s[i]);
}

/// The frames of a written file, read back.
#[verifier::spinoff_prover]
proof fn lemma_written_frames(s: Seq<i16>)
    ensures
        frames_of(
            wav_bytes(s),
            Fmt { format: 1, channels: 1, rate: 24_000, bits: 16 },
            44,
            s.len() as int,
        ) == (WavView {
            samples: SamplesView::Pcm { sums: s.map_values(|v: i16| v as int), bits: 16 },
            channels: 1,
            rate: 24_000,
        }),
{
    let d = wav_bytes(s);
    let f = Fmt { format: 1, channels: 1, rate: 24_000, bits: 16 };
    let read = frames_of(d, f, 44, s.len() as int);
    let sums = read.samples->sums;
    assert(f.bits as int / 8 == 2);
    assert forall|i: int| 0 <= i < s.len() implies #[trigger] sums[i] == s[i] as int by {
        assert(44 + i * f.channels as int * (f.bits as int / 8) == 44 + 2 * i) by (nonlinear_arith)
            requires
                f.channels == 1,
                f.bits == 16,
        ;
        lemma_written_sums(s, i);
    }
    assert(sums =~= s.map_values(|v: i16| v as int));
}

/// Reading a file that was written gives back its samples: one channel at
/// 24 kHz, 16 bits each, the same values in the same order.
#[verifier::spinoff_prover]
pub proof fn written_files_read_back(path: Seq<char>, s: Seq<i16>)
    requires
        s.len() > 0,
        36 + 2 * s.len() <= u32::MAX,
    ensures
        wav_of(path, wav_bytes(s)) == Ok::<WavView, ErrorView>(
            WavView {
                samples: SamplesView::Pcm { sums: s.map_values(|v: i16| v as int), bits: 16 },
                channels: 1,
                rate: 24_000,
            },
        ),
{
    let f = Fmt { format: 1, channels: 1, rate: 24_000, bits: 16 };
    lemma_written_shape(s);
    lemma_written_walk(path, wav_bytes(s), s.len());
    lemma_written_frames(s);
    assert(f.bits as int / 8 * f.channels as int == 2) by (nonlinear_arith)
        requires
            f.bits == 16,
            f.channels == 1,
    ;
}

/// The `width` bytes at `p` are the lowest of the number `v` in two's
/// complement, low byte first.
pub open spec fn holds(d: Seq<u8>, p: int, width: int, v: int) -> bool {
    &&& 0 <= p && p + width <= d.len()
    &&& d[p] == v % 256
    &&& d[p + 1] == v / 256 % 256
    &&& width >= 3 ==> d[p + 2] == v / 65536 % 256
    &&& width >= 4 ==> d[p + 3] == v / 16777216 % 256
}

/// Integer samples of 16, 24 and 32 bits are read back as they were written, in
/// two's complement, and are never outside of what their width can hold.
pub proof fn samples_are_twos_complement(d: Seq<u8>, p: int, v: int)
    ensures
        -0x8000 <= v < 0x8000 && holds(d, p, 2, v) ==> pcm_at(d, p, 16) == v,
        -0x80_0000 <= v < 0x80_0000 && holds(d, p, 3, v) ==> pcm_at(d, p, 24) == v,
        -0x8000_0000 <= v < 0x8000_0000 && holds(d, p, 4, v) ==> pcm_at(d, p, 32) == v,
        -0x8000 <= pcm_at(d, p, 16) < 0x8000,
        -0x80_0000 <= pcm_at(d, p, 24) < 0x80_0000,
        -0x8000_0000 <= pcm_at(d, p, 32) < 0x8000_0000,
{
    lemma_sample16(d, p, v);
    lemma_sample24(d, p, v);
    lemma_sample32(d, p, v);
}

/// A number by its lowest bytes and what is above them.
proof fn lemma_lowest(v: int)
    ensures
        v == v % 256 + 256 * (v / 256),
        v / 256 == v / 256 % 256 + 256 * (v / 65536),
        v / 65536 == v / 65536 % 256 + 256 * (v / 16777216),
{
    assert(v / 256 / 256 == v / 65536);
    assert(v / 65536 / 256 == v / 16777216);
}

#[verifier::spinoff_prover]
proof fn lemma_sample16(d: Seq<u8>, p: int, v: int)
    ensures
        -0x8000 <= v < 0x8000 && holds(d, p, 2, v) ==> pcm_at(d, p, 16) == v,
        -0x8000 <= pcm_at(d, p, 16) < 0x8000,
{
    if -0x8000 <= v < 0x8000 && holds(d, p, 2, v) {
        lemma_lowest(v);
        let top = v / 256;
        assert(-128 <= top < 128);
        assert(top % 256 == top || top % 256 == top + 256);
    }
}

#[verifier::spinoff_prover]
proof fn lemma_sample24(d: Seq<u8>, p: int, v: int)
    ensures
        -0x80_0000 <= v < 0x80_0000 && holds(d, p, 3, v) ==> pcm_at(d, p, 24) == v,
        -0x80_0000 <= pcm_at(d, p, 24) < 0x80_0000,
{
    if -0x80_0000 <= v < 0x80_0000 && holds(d, p, 3, v) {
        lemma_lowest(v);
        let top = v / 65536;
        assert(-128 <= top < 128);
        assert(top % 256 == top || top % 256 == top + 256);
    }
}

#[verifier::spinoff_prover]
proof fn lemma_sample32(d: Seq<u8>, p: int, v: int)
    ensures
        -0x8000_0000 <= v < 0x8000_0000 && holds(d, p, 4, v) ==> pcm_at(d, p, 32) == v,
        -0x8000_0000 <= pcm_at(d, p, 32) < 0x8000_0000,
{
    if -0x8000_0000 <= v < 0x8000_0000 && holds(d, p, 4, v) {
        lemma_lowest(v);
        let top = v / 16777216;
        assert(-128 <= top < 128);
        assert(top % 256 == top || top % 256 == top + 256);
    }
}

/// The sum of some numbers.
pub open spec fn sum_of(v: Seq<int>) -> int
    decreases v.len(),
{
    if v.len() == 0 {
        0
    } else {
        v[0] + sum_of(v.drop_first())
    }
}

proof fn lemma_sum_last(v: Seq<int>)
    requires
        v.len() > 0,
    ensures
        sum_of(v) == sum_of(v.drop_last()) + v.last(),
    decreases v.len(),
{
    if v.len() == 1 {
        assert(v.drop_last() =~= Seq::empty());
        assert(v.drop_first() =~= Seq::empty());
    } else {
        lemma_sum_last(v.drop_first());
        assert(v.drop_first().drop_last() =~= v.drop_last().drop_first());
    }
}

/// A frame is the sum over all of its channels, each `bits / 8` bytes behind the
/// one before it.
pub proof fn frames_sum_their_channels(d: Seq<u8>, p: int, bits: int, v: Seq<int>)
    requires
        bits == 16 || bits == 24 || bits == 32,
        forall|c: int|
            0 <= c < v.len() ==> holds(d, p + c * (bits / 8), bits / 8, #[trigger] v[c]),
        forall|c: int|
            0 <= c < v.len() ==> {
                &&& bits == 16 ==> -0x8000 <= #[trigger] v[c] < 0x8000
                &&& bits == 24 ==> -0x80_0000 <= v[c] < 0x80_0000
                &&& bits == 32 ==> -0x8000_0000 <= v[c] < 0x8000_0000
            },
    ensures
        pcm_sum(d, p, bits, v.len()) == sum_of(v),
    decreases v.len(),
{
    if v.len() > 0 {
        let w = v.drop_last();
        assert forall|c: int| 0 <= c < w.len() implies holds(
            d,
            p + c * (bits / 8),
            bits / 8,
            #[trigger] w[c],
        ) by {
            assert(w[c] == v[c]);
        }
        assert forall|c: int| 0 <= c < w.len() implies {
            &&& bits == 16 ==> -0x8000 <= #[trigger] w[c] < 0x8000
            &&& bits == 24 ==> -0x80_0000 <= w[c] < 0x80_0000
            &&& bits == 32 ==> -0x8000_0000 <= w[c] < 0x8000_0000
        } by {
            assert(w[c] == v[c]);
        }
        frames_sum_their_channels(d, p, bits, w);
        lemma_sum_last(v);
        let c = v.len() - 1;
        assert(v[c] == v.last());
        samples_are_twos_complement(d, p + c * (bits / 8), v[c]);
    }
}

/// The fields of a `fmt ` chunk: the format tag at 0, or at 24 where that is
/// 0xFFFE, the channels at 2, the rate at 4, the sample width at 14. A chunk
/// that is too short for them is refused.
pub proof fn formats_read_their_fields(path: Seq<char>, body: Seq<u8>)
    ensures
        body.len() < 16 ==> fmt_of(path, body) == Err::<Fmt, ErrorView>(
            ErrorView::BadWav { path, detail: "truncated fmt chunk"@ },
        ),
        body.len() >= 16 ==> ({
            let extensible = body[0] == 0xfe && body[1] == 0xff;
            &&& extensible && body.len() < 26 ==> fmt_of(path, body) == Err::<Fmt, ErrorView>(
                ErrorView::BadWav { path, detail: "truncated extensible fmt chunk"@ },
            )
            &&& !extensible || body.len() >= 26 ==> {
                &&& fmt_of(path, body) matches Ok(f)
                &&& f.format == if extensible {
                    body[24] + 256 * body[25]
                } else {
                    body[0] + 256 * body[1]
                }
                &&& f.channels == body[2] + 256 * body[3]
                &&& f.rate == body[4] + 256 * body[5] + 65536 * body[6] + 16777216 * body[7]
                &&& f.bits == body[14] + 256 * body[15]
            }
        }),
{
}

/// Whether the four bytes at `p` are these.
pub open spec fn letters(d: Seq<u8>, p: int, a: u8, b: u8, c: u8, e: u8) -> bool {
    0 <= p && p + 4 <= d.len() && d[p] == a && d[p + 1] == b && d[p + 2] == c && d[p + 3] == e
}

/// A walk goes from chunk to chunk over an even number of bytes each. A later
/// format or data chunk takes the place of an earlier one, one that does not fit
/// into the file is refused, any other chunk is passed over, and less than a
/// chunk's header at the end is left alone.
pub proof fn walks_go_from_chunk_to_chunk(path: Seq<char>, d: Seq<u8>, pos: int, found: Found)
    requires
        0 <= pos,
    ensures
        d.len() < pos + 8 ==> walk(path, d, pos, found) == Ok::<Found, ErrorView>(found),
        d.len() >= pos + 8 ==> ({
            let size = d[pos + 4] + 256 * d[pos + 5] + 65536 * d[pos + 6] + 16777216 * d[pos + 7];
            let next = pos + 8 + if size % 2 == 0 {
                size
            } else {
                size + 1
            };
            let fits = pos + 8 + size <= d.len();
            let format = letters(d, pos, 0x66, 0x6d, 0x74, 0x20);
            let data = letters(d, pos, 0x64, 0x61, 0x74, 0x61);
            &&& !format && !data ==> walk(path, d, pos, found) == walk(path, d, next, found)
            &&& data && fits ==> walk(path, d, pos, found) == walk(
                path,
                d,
                next,
                (Found { fmt: found.fmt, dat: Some((pos + 8, size)) }),
            )
            &&& data && !fits ==> walk(path, d, pos, found) == Err::<Found, ErrorView>(
                ErrorView::BadWav { path, detail: "truncated data chunk"@ },
            )
            &&& format && !fits ==> walk(path, d, pos, found) == Err::<Found, ErrorView>(
                ErrorView::BadWav { path, detail: "truncated fmt chunk"@ },
            )
            &&& format && fits ==> match fmt_of(path, d.subrange(pos + 8, pos + 8 + size)) {
                Ok(f) => walk(path, d, pos, found) == walk(
                    path,
                    d,
                    next,
                    (Found { fmt: Some(f), dat: found.dat }),
                ),
                Err(e) => walk(path, d, pos, found) == Err::<Found, ErrorView>(e),
            }
        }),
{
    if d.len() >= pos + 8 {
        assert(le32(d, pos) == TAG_FMT <==> letters(d, pos, 0x66, 0x6d, 0x74, 0x20));
        assert(le32(d, pos) == TAG_DATA <==> letters(d, pos, 0x64, 0x61, 0x74, 0x61));
    }
}

/// A file is a RIFF header with WAVE in it, then chunks. What the walk over them
/// found is read as the last format says, or refused: without a format, without
/// data, without channels, in a format other than integers of 16, 24 or 32 bits
/// or floats of 32, at a rate of zero or over 384 kHz, without a whole frame.
/// Otherwise all whole frames are read, one behind the other.
pub proof fn files_read_as_their_format_says(path: Seq<char>, d: Seq<u8>)
    ensures
        ({
            let r = wav_of(path, d);
            let riff = letters(d, 0, 0x52, 0x49, 0x46, 0x46) && letters(
                d,
                8,
                0x57,
                0x41,
                0x56,
                0x45,
            );
            let none = Found { fmt: None, dat: None };
            &&& !riff ==> r == Err::<WavView, ErrorView>(
                ErrorView::BadWav { path, detail: "not a RIFF/WAVE file"@ },
            )
            &&& riff ==> match walk(path, d, 12, none) {
                Err(e) => r == Err::<WavView, ErrorView>(e),
                Ok(found) => read_as_found(path, d, found, r),
            }
        }),
{
    assert(d.len() >= 12 ==> (le32(d, 0) == TAG_RIFF <==> letters(d, 0, 0x52, 0x49, 0x46, 0x46)));
    assert(d.len() >= 12 ==> (le32(d, 8) == TAG_WAVE <==> letters(d, 8, 0x57, 0x41, 0x56, 0x45)));
    if d.len() >= 12 && le32(d, 0) == TAG_RIFF && le32(d, 8) == TAG_WAVE {
        match walk(path, d, 12, Found { fmt: None, dat: None }) {
            Err(_) => {},
            Ok(found) => {
                lemma_walk_inside(path, d, 12, Found { fmt: None, dat: None });
                if let (Some(f), Some((start, len))) = (found.fmt, found.dat) {
                    lemma_read_as_found(path, d, f, start, len);
                }
            },
        }
    }
}

/// What a file reads as, or why not, once its chunks were found.
pub open spec fn read_as_found(
    path: Seq<char>,
    d: Seq<u8>,
    found: Found,
    r: Result<WavView, ErrorView>,
) -> bool {
    match (found.fmt, found.dat) {
        (None, _) => r == Err::<WavView, ErrorView>(
            ErrorView::BadWav { path, detail: "no fmt chunk"@ },
        ),
        (Some(_), None) => r == Err::<WavView, ErrorView>(
            ErrorView::BadWav { path, detail: "no data chunk"@ },
        ),
        (Some(f), Some((start, len))) => {
            let known = f.format == 1 && (f.bits == 16 || f.bits == 24 || f.bits == 32) || f.format
                == 3 && f.bits == 32;
            let width = if f.bits == 16 {
                2
            } else if f.bits == 24 {
                3
            } else {
                4int
            };
            let n = len / (width * f.channels);
            if f.channels == 0 {
                r == Err::<WavView, ErrorView>(ErrorView::BadWav { path, detail: "zero channels"@ })
            } else if !known {
                r == Err::<WavView, ErrorView>(
                    ErrorView::UnsupportedWav {
                        path,
                        detail: "format tag "@ + digits(f.format as nat) + ", "@ + digits(
                            f.bits as nat,
                        ) + "-bit"@,
                    },
                )
            } else if f.rate == 0 || f.rate > 384_000 {
                r == Err::<WavView, ErrorView>(ErrorView::BadSampleRate { path, rate: f.rate })
            } else if n == 0 {
                r == Err::<WavView, ErrorView>(ErrorView::BadWav { path, detail: "no samples"@ })
            } else {
                &&& r matches Ok(w)
                &&& w.channels == f.channels
                &&& w.rate == f.rate
                &&& match w.samples {
                    SamplesView::Pcm { sums, bits } => {
                        &&& f.format == 1
                        &&& bits == f.bits
                        &&& sums.len() == n
                        &&& forall|i: int|
                            0 <= i < n ==> #[trigger] sums[i] == pcm_sum(
                                d,
                                start + i * f.channels * width,
                                f.bits as int,
                                f.channels as nat,
                            )
                    },
                    SamplesView::Float { words } => {
                        &&& f.format == 3
                        &&& words.len() == n * f.channels
                        &&& forall|i: int|
                            0 <= i < n * f.channels ==> #[trigger] words[i] == d[start + i * 4]
                                + 256 * d[start + i * 4 + 1] + 65536 * d[start + i * 4 + 2]
                                + 16777216 * d[start + i * 4 + 3]
                    },
                }
            }
        },
    }
}

proof fn lemma_read_as_found(path: Seq<char>, d: Seq<u8>, f: Fmt, start: int, len: int)
    requires
        0 <= len,
        le32(d, 0) == TAG_RIFF,
        le32(d, 8) == TAG_WAVE,
        d.len() >= 12,
        walk(path, d, 12, Found { fmt: None, dat: None }) == Ok::<Found, ErrorView>(
            (Found { fmt: Some(f), dat: Some((start, len)) }),
        ),
    ensures
        read_as_found(
            path,
            d,
            (Found { fmt: Some(f), dat: Some((start, len)) }),
            wav_of(path, d),
        ),
{
    let w = wav_of(path, d);
    let width = if f.bits == 16 {
        2
    } else if f.bits == 24 {
        3
    } else {
        4int
    };
    assert(readable(f.format, f.bits as int) ==> f.bits as int / 8 == width);
    if f.channels > 0 {
        assert(width * f.channels > 0) by (nonlinear_arith)
            requires
                width > 0,
                f.channels > 0,
        ;
        let n = len / (width * f.channels);
        assert(n >= 0 && n * f.channels >= 0) by (nonlinear_arith)
            requires
                n == len / (width * f.channels),
                width * f.channels > 0,
                len >= 0,
                f.channels > 0,
        ;
    }
    if f.format == 3 && f.bits == 32 && w is Ok {
        assert forall|i: int| 0 <= i < w->Ok_0.samples->words.len() implies #[trigger] w
            ->Ok_0.samples->words[i] == d[start + i * 4] + 256 * d[start + i * 4 + 1] + 65536
            * d[start + i * 4 + 2] + 16777216 * d[start + i * 4 + 3] by {
            assert(f.bits as int / 8 == 4);
        }
    }
}

/// A written file is a header of 44 bytes and two for each sample, low byte
/// first, in order. The header names the sizes of what follows it, integers of
/// 16 bits in one channel, 24000 of them or 48000 bytes a second, two bytes a
/// frame.
pub proof fn written_files_are_complete(s: Seq<i16>)
    requires
        36 + 2 * s.len() <= u32::MAX,
    ensures
        ({
            let d = wav_bytes(s);
            &&& d.len() == 44 + 2 * s.len()
            &&& letters(d, 0, 0x52, 0x49, 0x46, 0x46)
            &&& holds(d, 4, 4, 36 + 2 * s.len() as int)
            &&& letters(d, 8, 0x57, 0x41, 0x56, 0x45)
            &&& letters(d, 12, 0x66, 0x6d, 0x74, 0x20)
            &&& holds(d, 16, 4, 16)
            &&& holds(d, 20, 2, 1)
            &&& holds(d, 22, 2, 1)
            &&& holds(d, 24, 4, 24_000)
            &&& holds(d, 28, 4, 48_000)
            &&& holds(d, 32, 2, 2)
            &&& holds(d, 34, 2, 16)
            &&& letters(d, 36, 0x64, 0x61, 0x74, 0x61)
            &&& holds(d, 40, 4, 2 * s.len() as int)
        }),
        forall|i: int|
            0 <= i < s.len() ==> holds(wav_bytes(s), 44 + 2 * i, 2, #[trigger] s[i] as int),
{
    lemma_written_shape(s);
    lemma_header(wav_bytes(s), s.len());
    lemma_header_rest(wav_bytes(s), s.len());
    lemma_header_bytes(wav_bytes(s), s.len());
    assert forall|i: int| 0 <= i < s.len() implies holds(
        wav_bytes(s),
        44 + 2 * i,
        2,
        #[trigger] s[i] as int,
    ) by {
        lemma_written_pair(s, i);
    }
}

proof fn lemma_written_pair(s: Seq<i16>, i: int)
    requires
        0 <= i < s.len(),
    ensures
        holds(wav_bytes(s), 44 + 2 * i, 2, s[i] as int),
{
    let d = wav_bytes(s);
    lemma_written_shape(s);
    lemma_sample_bytes(s);
    assert(wav_header(s.len()).len() == 44);
    let pair = sample_bytes(s).subrange(2 * i, 2 * i + 2);
    assert(pair == bytes16(word16(s[i])));
    assert(d[44 + 2 * i] == pair[0] && d[44 + 2 * i + 1] == pair[1]);
    let v = s[i] as int;
    assert(v < 0 ==> (v + 0x1_0000) % 256 == v % 256 && (v + 0x1_0000) / 256 % 256 == v / 256
        % 256);
}

proof fn lemma_holds16(d: Seq<u8>, p: int)
    requires
        0 <= p,
        p + 2 <= d.len(),
    ensures
        holds(d, p, 2, le16(d, p) as int),
{
}

proof fn lemma_holds32(d: Seq<u8>, p: int)
    requires
        0 <= p,
        p + 4 <= d.len(),
    ensures
        holds(d, p, 4, le32(d, p) as int),
{
}

/// The fields of the header that a reader passes over.
proof fn lemma_header_rest(d: Seq<u8>, n: nat)
    requires
        36 + 2 * n <= u32::MAX,
        d.len() >= 44,
        d.take(44) == wav_header(n),
    ensures
        le32(d, 4) == 36 + 2 * n,
        le32(d, 28) == 48_000,
        le16(d, 32) == 2,
{
    let h = wav_header(n);
    assert(h.len() == 44);
    assert(d.subrange(4, 8) =~= d.take(44).subrange(4, 8));
    assert(h.subrange(4, 8) =~= bytes32(36 + 2 * n));
    lemma_bytes32(d, 4, 36 + 2 * n);
    assert(d.subrange(28, 32) =~= d.take(44).subrange(28, 32));
    assert(h.subrange(28, 32) =~= bytes32(48_000));
    lemma_bytes32(d, 28, 48_000);
    assert(d.subrange(32, 34) =~= d.take(44).subrange(32, 34));
    assert(h.subrange(32, 34) =~= bytes16(2));
    lemma_bytes16(d, 32, 2);
}

proof fn lemma_letters(d: Seq<u8>, p: int, a: u8, b: u8, c: u8, e: u8)
    requires
        0 <= p,
        p + 4 <= d.len(),
        le32(d, p) == a + 256 * b + 65536 * c + 16777216 * e,
    ensures
        letters(d, p, a, b, c, e),
{
    let (w, x, y, z) = (d[p] as int, d[p + 1] as int, d[p + 2] as int, d[p + 3] as int);
    let k = (b - x) + 256 * (c - y) + 65536 * (e - z);
    assert(w - a == 256 * k);
    assert(k == 0);
    let m = (c - y) + 256 * (e - z);
    assert(x - b == 256 * m);
    assert(m == 0);
    assert(y - c == 256 * (e - z));
}

/// The bytes of the header, field by field.
proof fn lemma_header_bytes(d: Seq<u8>, n: nat)
    requires
        d.len() >= 44,
        le32(d, 0) == TAG_RIFF,
        le32(d, 4) == 36 + 2 * n,
        le32(d, 8) == TAG_WAVE,
        le32(d, 12) == TAG_FMT,
        le32(d, 16) == 16,
        le16(d, 20) == 1,
        le16(d, 22) == 1,
        le32(d, 24) == 24_000,
        le32(d, 28) == 48_000,
        le16(d, 32) == 2,
        le16(d, 34) == 16,
        le32(d, 36) == TAG_DATA,
        le32(d, 40) == 2 * n,
    ensures
        letters(d, 0, 0x52, 0x49, 0x46, 0x46),
        holds(d, 4, 4, 36 + 2 * n as int),
        letters(d, 8, 0x57, 0x41, 0x56, 0x45),
        letters(d, 12, 0x66, 0x6d, 0x74, 0x20),
        holds(d, 16, 4, 16),
        holds(d, 20, 2, 1),
        holds(d, 22, 2, 1),
        holds(d, 24, 4, 24_000),
        holds(d, 28, 4, 48_000),
        holds(d, 32, 2, 2),
        holds(d, 34, 2, 16),
        letters(d, 36, 0x64, 0x61, 0x74, 0x61),
        holds(d, 40, 4, 2 * n as int),
{
    lemma_letters(d, 0, 0x52, 0x49, 0x46, 0x46);
    lemma_letters(d, 8, 0x57, 0x41, 0x56, 0x45);
    lemma_letters(d, 12, 0x66, 0x6d, 0x74, 0x20);
    lemma_letters(d, 36, 0x64, 0x61, 0x74, 0x61);
    lemma_holds32(d, 4);
    lemma_holds32(d, 16);
    lemma_holds16(d, 20);
    lemma_holds16(d, 22);
    lemma_holds32(d, 24);
    lemma_holds32(d, 28);
    lemma_holds16(d, 32);
    lemma_holds16(d, 34);
    lemma_holds32(d, 40);
}

/// What a walk finds is inside the file.
proof fn lemma_walk_inside(path: Seq<char>, d: Seq<u8>, pos: int, found: Found)
    requires
        0 <= pos,
        found.dat matches Some((s, n)) ==> 0 <= s && 0 <= n && s + n <= d.len(),
    ensures
        walk(path, d, pos, found) matches Ok(f) ==> (f.dat matches Some((s, n)) ==> 0 <= s && 0
            <= n && s + n <= d.len()),
    decreases
            if pos < d.len() {
                d.len() - pos
            } else {
                0
            },
{
    if pos + 8 <= d.len() {
        let size = le32(d, pos + 4) as int;
        let next = pos + 8 + size + size % 2;
        lemma_walk_inside(path, d, next, found);
        if pos + 8 + size <= d.len() {
            lemma_walk_inside(
                path,
                d,
                next,
                Found { fmt: found.fmt, dat: Some((pos + 8, size)) },
            );
            match fmt_of(path, d.subrange(pos + 8, pos + 8 + size)) {
                Ok(f) => {
                    lemma_walk_inside(path, d, next, Found { fmt: Some(f), dat: found.dat });
                },
                Err(_) => {},
            }
        }
    }
}

/// A file that was read is seen as it is: the sums of its frames or its words, in
/// order, with the width, the channels and the rate.
pub proof fn files_are_seen_as_they_are(w: Wav, i: int)
    ensures
        w@.channels == w.channels,
        w@.rate == w.rate,
        match (w.samples, w@.samples) {
            (WavSamples::Pcm { sums, bits }, SamplesView::Pcm { sums: seen, bits: width }) => {
                &&& width == bits
                &&& seen.len() == sums.len()
                &&& 0 <= i < sums.len() ==> seen[i] == sums[i]
            },
            (WavSamples::Float { words }, SamplesView::Float { words: seen }) => seen == words@,
            _ => false,
        },
{
}

} // verus!
