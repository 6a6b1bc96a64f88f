use vstd::prelude::*;
use crate::util::bmp::{le16_at, le32_at};
use crate::util::bytes::{byte_bound, le_bytes, lemma_le_roundtrip, lemma_le_value_2, lemma_le_value_4};
use crate::util::writer::le_bytes_of;

verus! {

/// Why a WAV stream was refused.
#[derive(Debug, Clone, Copy, PartialEq, Eq, Structural)]
pub enum WavError {
    /// The stream does not start with `RIFF`.
    BadMagic,
    /// The RIFF form is not `WAVE`.
    BadFormat,
    /// The `fmt ` chunk is not 16 bytes long.
    BadFmtSize,
    /// The samples are not plain PCM.
    Compressed,
    /// The byte rate is not sample rate x channels x bits per sample / 8, or that product does
    /// not fit in 32 bits.
    BadByteRate,
    /// The block alignment is not channels x bits per sample / 8, or that product does not fit
    /// in 16 bits.
    BadBlockAlign,
    /// The samples are not 8, 16 or 32 bits wide.
    BadBitDepth,
    /// No `data` chunk comes before the end.
    NoData,
    /// The stream ends inside a header or chunk.
    Truncated,
}

/// The format and sample bytes of a PCM WAV stream.
#[derive(Debug, Clone, Copy, PartialEq, Eq, Structural)]
pub struct WavInfo {
    pub channels: u16,
    pub sample_rate: u32,
    pub bits_per_sample: u16,
    /// Where the sample bytes start.
    pub data_start: usize,
    /// How many sample bytes there are.
    pub data_len: usize,
}

/// `s` is the ASCII tag `a b c d`.
pub open spec fn is_tag(d: Seq<u8>, i: int, a: u8, b: u8, c: u8, e: u8) -> bool {
    d[i] == a && d[i + 1] == b && d[i + 2] == c && d[i + 3] == e
}

/// The format read so far: `(channels, sample rate, bits per sample)`.
pub type WavFmt = (u16, u32, u16);

/// Reads the chunks from `i` on with the format `fmt` read so far, until the `data` chunk, as
/// the loader does: a `fmt ` chunk is checked and taken, any other chunk is skipped.
pub open spec fn wav_chunks(d: Seq<u8>, i: nat, fmt: WavFmt) -> Result<WavInfo, WavError>
    decreases d.len() - i,
{
    if i + 8 >= d.len() {
        Err(WavError::NoData)
    } else {
        let size = le32_at(d, (i + 4) as int);
        let body = i + 8;
        if is_tag(d, i as int, 0x66, 0x6d, 0x74, 0x20) {
            if size != 16 {
                Err(WavError::BadFmtSize)
            } else if body + 2 > d.len() {
                Err(WavError::Truncated)
            } else if le16_at(d, body as int) != 1 {
                Err(WavError::Compressed)
            } else if body + 16 > d.len() {
                Err(WavError::Truncated)
            } else {
                let ch = le16_at(d, (body + 2) as int);
                let rate = le32_at(d, (body + 4) as int);
                let byte_rate = le32_at(d, (body + 8) as int);
                let align = le16_at(d, (body + 12) as int);
                let bits = le16_at(d, (body + 14) as int);
                if rate * ch > u32::MAX || rate * ch * bits > u32::MAX || byte_rate != rate * ch * bits
                    / 8 {
                    Err(WavError::BadByteRate)
                } else if ch * bits > u16::MAX || align != ch * bits / 8 {
                    Err(WavError::BadBlockAlign)
                } else {
                    wav_chunks(d, body + 16, (ch as u16, rate as u32, bits as u16))
                }
            }
        } else if is_tag(d, i as int, 0x64, 0x61, 0x74, 0x61) {
            if body + size > d.len() {
                Err(WavError::Truncated)
            } else if fmt.2 != 8 && fmt.2 != 16 && fmt.2 != 32 {
                Err(WavError::BadBitDepth)
            } else {
                Ok(
                    WavInfo {
                        channels: fmt.0,
                        sample_rate: fmt.1,
                        bits_per_sample: fmt.2,
                        data_start: body as usize,
                        data_len: size as usize,
                    },
                )
            }
        } else if body + size > d.len() {
            Err(WavError::NoData)
        } else {
            wav_chunks(d, body + size, fmt)
        }
    }
}

/// What reading `d` gives: the format and where the sample bytes lie, or why `d` is refused.
pub open spec fn wav_parse(d: Seq<u8>) -> Result<WavInfo, WavError> {
    if d.len() < 4 {
        Err(WavError::Truncated)
    } else if !is_tag(d, 0, 0x52, 0x49, 0x46, 0x46) {
        Err(WavError::BadMagic)
    } else if d.len() < 12 {
        Err(WavError::Truncated)
    } else if !is_tag(d, 8, 0x57, 0x41, 0x56, 0x45) {
        Err(WavError::BadFormat)
    } else {
        wav_chunks(d, 12, (0, 0, 0))
    }
}

/// The bytes of a 16-bit PCM WAV file holding `samples`.
pub open spec fn wav_pcm16(samples: Seq<i16>, rate: u32, ch: u16) -> Seq<u8> {
    wav_pcm16_header(samples.len(), rate, ch) + pcm16_bytes(samples)
}

/// The 44-byte header of a 16-bit PCM WAV file of `n` samples.
pub open spec fn wav_pcm16_header(n: nat, rate: u32, ch: u16) -> Seq<u8> {
    let size = 12 + 24 + 8 + n * 2;
    seq![0x52u8, 0x49, 0x46, 0x46] + le_bytes((size - 8) as nat, 4) + seq![0x57u8, 0x41, 0x56, 0x45]
        + seq![0x66u8, 0x6d, 0x74, 0x20] + le_bytes(16, 4) + le_bytes(1, 2) + le_bytes(ch as nat, 2)
        + le_bytes(rate as nat, 4) + le_bytes((rate * ch * 16 / 8) as nat, 4) + le_bytes(
        (ch * 16 / 8) as nat,
        2,
    ) + le_bytes(16, 2) + seq![0x64u8, 0x61, 0x74, 0x61] + le_bytes((n * 2) as nat, 4)
}

/// Each sample's two bytes, least significant first.
pub open spec fn pcm16_bytes(samples: Seq<i16>) -> Seq<u8>
    decreases samples.len(),
{
    if samples.len() == 0 {
        Seq::empty()
    } else {
        pcm16_bytes(samples.drop_last()) + le_bytes(samples.last() as u16 as nat, 2)
    }
}

fn rd16(d: &[u8], i: usize) -> (r: u16)
    requires
        i + 2 <= d@.len(),
    ensures
        r == le16_at(d@, i as int),
{
    proof {
        lemma_le_value_2(d@.subrange(i as int, i + 2));
    }
    d[i] as u16 + (d[i + 1] as u16) * 0x100
}

fn rd32(d: &[u8], i: usize) -> (r: u32)
    requires
        i + 4 <= d@.len(),
    ensures
        r == le32_at(d@, i as int),
{
    proof {
        lemma_le_value_4(d@.subrange(i as int, i + 4));
    }
    d[i] as u32 + (d[i + 1] as u32) * 0x100 + (d[i + 2] as u32) * 0x1_0000 + (d[i + 3] as u32)
        * 0x100_0000
}

fn push_le(out: &mut Vec<u8>, x: u32, n: usize)
    ensures
        final(out)@ == old(out)@ + le_bytes(x as nat, n as nat),
{
    let mut b = le_bytes_of(x as u64, n);
    out.append(&mut b);
}

/// The header of a 16-bit PCM WAV file of `n` samples, as `wav_pcm16_header` says.
fn pcm16_header(n: u32, sample_rate: u32, channels: u16) -> (r: Vec<u8>)
    requires
        12 + 24 + 8 + n * 2 <= u32::MAX,
        sample_rate * channels * 16 <= u32::MAX,
        channels * 16 <= u16::MAX,
    ensures
        r@ == wav_pcm16_header(n as nat, sample_rate, channels),
{
    let size: u32 = 12 + 24 + 8 + n * 2;
    let mut out: Vec<u8> = Vec::new();
    out.push(0x52);
    out.push(0x49);
    out.push(0x46);
    out.push(0x46);
    push_le(&mut out, size - 8, 4);
    out.push(0x57);
    out.push(0x41);
    out.push(0x56);
    out.push(0x45);
    out.push(0x66);
    out.push(0x6d);
    out.push(0x74);
    out.push(0x20);
    push_le(&mut out, 16, 4);
    push_le(&mut out, 1, 2);
    push_le(&mut out, channels as u32, 2);
    push_le(&mut out, sample_rate, 4);
    push_le(&mut out, sample_rate * channels as u32 * 16 / 8, 4);
    push_le(&mut out, (channels * 16 / 8) as u32, 2);
    push_le(&mut out, 16, 2);
    out.push(0x64);
    out.push(0x61);
    out.push(0x74);
    out.push(0x61);
    push_le(&mut out, n * 2, 4);
    assert(out@ =~= wav_pcm16_header(n as nat, sample_rate, channels));
    out
}

proof fn lemma_pcm16_len(samples: Seq<i16>)
    ensures
        pcm16_bytes(samples).len() == samples.len() * 2,
    decreases samples.len(),
{
    if samples.len() > 0 {
        lemma_pcm16_len(samples.drop_last());
        assert(byte_bound(2) == 0x1_0000) by {
            reveal_with_fuel(byte_bound, 3);
        }
        lemma_le_roundtrip(samples.last() as u16 as nat, 2);
    }
}

/// Reading back what `encode_pcm16` writes gives its format, and its sample bytes right after
/// the 44-byte header, whenever there is at least one sample.
pub proof fn lemma_wav_roundtrip(samples: Seq<i16>, rate: u32, ch: u16)
    requires
        samples.len() >= 1,
        12 + 24 + 8 + samples.len() * 2 <= u32::MAX,
        rate * ch * 16 <= u32::MAX,
        ch * 16 <= u16::MAX,
    ensures
        wav_parse(wav_pcm16(samples, rate, ch)) == Ok::<WavInfo, WavError>(
            WavInfo {
                channels: ch,
                sample_rate: rate,
                bits_per_sample: 16,
                data_start: 44,
                data_len: (samples.len() * 2) as usize,
            },
        ),
{
    let n = samples.len();
    let d = wav_pcm16(samples, rate, ch);
    assert(byte_bound(4) == 0x1_0000_0000 && byte_bound(2) == 0x1_0000) by {
        reveal_with_fuel(byte_bound, 5);
    }
    let size = 12 + 24 + 8 + n * 2;
    lemma_le_roundtrip((size - 8) as nat, 4);
    lemma_le_roundtrip(16, 4);
    lemma_le_roundtrip(1, 2);
    lemma_le_roundtrip(ch as nat, 2);
    lemma_le_roundtrip(rate as nat, 4);
    lemma_le_roundtrip((rate * ch * 16 / 8) as nat, 4);
    lemma_le_roundtrip((ch * 16 / 8) as nat, 2);
    lemma_le_roundtrip(16, 2);
    lemma_le_roundtrip((n * 2) as nat, 4);
    lemma_pcm16_len(samples);
    assert(d.len() == 44 + n * 2);
    assert(d.subrange(16, 20) =~= le_bytes(16, 4));
    assert(d.subrange(20, 22) =~= le_bytes(1, 2));
    assert(d.subrange(22, 24) =~= le_bytes(ch as nat, 2));
    assert(d.subrange(24, 28) =~= le_bytes(rate as nat, 4));
    assert(d.subrange(28, 32) =~= le_bytes((rate * ch * 16 / 8) as nat, 4));
    assert(d.subrange(32, 34) =~= le_bytes((ch * 16 / 8) as nat, 2));
    assert(d.subrange(34, 36) =~= le_bytes(16, 2));
    assert(d.subrange(40, 44) =~= le_bytes((n * 2) as nat, 4));
    assert(rate * ch * 16 / 8 == rate * ch * 16 / 8);
    assert(wav_chunks(d, 36, (ch, rate, 16)) == Ok::<WavInfo, WavError>(
        WavInfo {
            channels: ch,
            sample_rate: rate,
            bits_per_sample: 16,
            data_start: 44,
            data_len: (n * 2) as usize,
        },
    ));
    assert(rate * ch <= u32::MAX) by (nonlinear_arith)
        requires
            rate * ch * 16 <= u32::MAX,
    ;
}

/// The WAV format: PCM audio in a RIFF container.
pub struct Wav;

impl Wav {
    /// Reads the header and chunks of `data`, as `wav_parse` says.
    pub fn parse(data: &[u8]) -> (r: Result<WavInfo, WavError>)
        ensures
            r == wav_parse(data@),
    {
        let n = data.len();
        if n < 4 {
            return Err(WavError::Truncated);
        }
        if !(data[0] == 0x52 && data[1] == 0x49 && data[2] == 0x46 && data[3] == 0x46) {
            return Err(WavError::BadMagic);
        }
        if n < 12 {
            return Err(WavError::Truncated);
        }
        if !(data[8] == 0x57 && data[9] == 0x41 && data[10] == 0x56 && data[11] == 0x45) {
            return Err(WavError::BadFormat);
        }
        let mut i: usize = 12;
        let mut fmt: WavFmt = (0, 0, 0);
        while n - i > 8
            invariant
                n == data@.len(),
                12 <= i <= n,
                wav_parse(data@) == wav_chunks(data@, i as nat, fmt),
            decreases n - i,
        {
            let size = rd32(data, i + 4);
            let body = i + 8;
            if data[i] == 0x66 && data[i + 1] == 0x6d && data[i + 2] == 0x74 && data[i + 3] == 0x20 {
                if size != 16 {
                    return Err(WavError::BadFmtSize);
                }
                if n - body < 2 {
                    return Err(WavError::Truncated);
                }
                if rd16(data, body) != 1 {
                    return Err(WavError::Compressed);
                }
                if n - body < 16 {
                    return Err(WavError::Truncated);
                }
                let ch = rd16(data, body + 2);
                let rate = rd32(data, body + 4);
                let byte_rate = rd32(data, body + 8);
                let align = rd16(data, body + 12);
                let bits = rd16(data, body + 14);
                assert(rate as u64 * ch as u64 <= 0xffff_ffff * 0xffff) by (nonlinear_arith)
                    requires
                        rate <= 0xffff_ffff,
                        ch <= 0xffff,
                ;
                let rc: u64 = rate as u64 * ch as u64;
                if rc > u32::MAX as u64 {
                    return Err(WavError::BadByteRate);
                }
                assert(rc * bits <= 0xffff_ffff * 0xffff) by (nonlinear_arith)
                    requires
                        rc <= 0xffff_ffff,
                        bits <= 0xffff,
                ;
                let rcb: u64 = rc * bits as u64;
                if rcb > u32::MAX as u64 || byte_rate as u64 != rcb / 8 {
                    return Err(WavError::BadByteRate);
                }
                assert(ch as u32 * bits as u32 <= 0xffff * 0xffff) by (nonlinear_arith)
                    requires
                        ch <= 0xffff,
                        bits <= 0xffff,
                ;
                let cb: u32 = ch as u32 * bits as u32;
                if cb > u16::MAX as u32 || align as u32 != cb / 8 {
                    return Err(WavError::BadBlockAlign);
                }
                fmt = (ch, rate, bits);
                i = body + 16;
            } else if data[i] == 0x64 && data[i + 1] == 0x61 && data[i + 2] == 0x74 && data[i + 3]
                == 0x61 {
                if n - body < size as usize {
                    return Err(WavError::Truncated);
                }
                if fmt.2 != 8 && fmt.2 != 16 && fmt.2 != 32 {
                    return Err(WavError::BadBitDepth);
                }
                return Ok(
                    WavInfo {
                        channels: fmt.0,
                        sample_rate: fmt.1,
                        bits_per_sample: fmt.2,
                        data_start: body,
                        data_len: size as usize,
                    },
                );
            } else {
                if n - body < size as usize {
                    assert(wav_chunks(data@, (body + size) as nat, fmt) == Err::<WavInfo, WavError>(
                        WavError::NoData,
                    ));
                    return Err(WavError::NoData);
                }
                i = body + size as usize;
            }
        }
        Err(WavError::NoData)
    }

    /// Writes `samples` as a 16-bit PCM WAV file, as `wav_pcm16` says.
    pub fn encode_pcm16(samples: &[i16], sample_rate: u32, channels: u16) -> (r: Vec<u8>)
        requires
            12 + 24 + 8 + samples@.len() * 2 <= u32::MAX,
            sample_rate * channels * 16 <= u32::MAX,
            channels * 16 <= u16::MAX,
        ensures
            r@ == wav_pcm16(samples@, sample_rate, channels),
    {
        let mut out = pcm16_header(samples.len() as u32, sample_rate, channels);
        let ghost head = out@;
        let mut k: usize = 0;
        while k < samples.len()
            invariant
                k <= samples@.len(),
                out@ == head + pcm16_bytes(samples@.subrange(0, k as int)),
            decreases samples@.len() - k,
        {
            push_le(&mut out, samples[k] as u16 as u32, 2);
            proof {
                let s = samples@.subrange(0, k + 1);
                assert(s.drop_last() =~= samples@.subrange(0, k as int));
                assert(s.last() == samples@[k as int]);
            }
            k = k + 1;
        }
        assert(samples@.subrange(0, samples@.len() as int) =~= samples@);
        out
    }
}

proof fn lemma_le4(x: nat)
    ensures
        le_bytes(x, 4) == seq![
            (x % 256) as u8,
            (x / 256 % 256) as u8,
            (x / 0x1_0000 % 256) as u8,
            (x / 0x100_0000 % 256) as u8,
        ],
{
    reveal_with_fuel(le_bytes, 5);
    vstd::arithmetic::div_mod::lemma_div_denominator(x as int, 256, 256);
    vstd::arithmetic::div_mod::lemma_div_denominator(x as int, 0x1_0000, 256);
    assert(le_bytes(x, 4) =~= seq![
        (x % 256) as u8,
        (x / 256 % 256) as u8,
        (x / 0x1_0000 % 256) as u8,
        (x / 0x100_0000 % 256) as u8,
    ]);
}

proof fn lemma_le2(x: nat)
    ensures
        le_bytes(x, 2) == seq![(x % 256) as u8, (x / 256 % 256) as u8],
{
    reveal_with_fuel(le_bytes, 3);
    assert(le_bytes(x, 2) =~= seq![(x % 256) as u8, (x / 256 % 256) as u8]);
}

/// Each 16-bit sample is stored as its two bytes, least significant first: sample `k` at bytes
/// `2k` and `2k + 1`.
pub proof fn lemma_pcm16_sample_bytes(samples: Seq<i16>)
    ensures
        pcm16_bytes(samples).len() == 2 * samples.len(),
        forall|k: int|
            0 <= k < samples.len() ==> #[trigger] pcm16_bytes(samples)[2 * k] == (samples[k] as u16 % 256) as u8
                && pcm16_bytes(samples)[2 * k + 1] == (samples[k] as u16 / 256) as u8,
    decreases samples.len(),
{
    if samples.len() > 0 {
        let p = samples.drop_last();
        lemma_pcm16_sample_bytes(p);
        let x = samples.last() as u16;
        lemma_le2(x as nat);
        assert forall|k: int| 0 <= k < samples.len() implies #[trigger] pcm16_bytes(samples)[2 * k] == (
        samples[k] as u16 % 256) as u8 && pcm16_bytes(samples)[2 * k + 1] == (samples[k] as u16 / 256) as u8 by {
            if k < p.len() {
                assert(samples[k] == p[k]);
                assert(pcm16_bytes(samples)[2 * k] == pcm16_bytes(p)[2 * k]);
                assert(pcm16_bytes(samples)[2 * k + 1] == pcm16_bytes(p)[2 * k + 1]);
            }
        }
    }
}

/// The 44-byte header that encoding writes is that of a canonical PCM WAV file of `n` samples:
/// `RIFF`, the size of the rest, `WAVE`, a 16-byte `fmt ` chunk (format 1, the channel count,
/// the sample rate, the byte rate `rate * ch * 2`, the block alignment `ch * 2`, 16 bits per
/// sample), and the header of a `data` chunk of two bytes per sample, all numbers
/// little-endian.
#[verifier::spinoff_prover]
#[verifier::rlimit(80)]
pub proof fn lemma_wav_header_bytes(n: nat, rate: u32, ch: u16)
    ensures
        ({
            let e = wav_pcm16_header(n, rate, ch);
            let br = rate as nat * ch as nat * 2;
            let size = 36 + 2 * n;
            &&& e.len() == 44
            &&& e[0] == 0x52 && e[1] == 0x49 && e[2] == 0x46 && e[3] == 0x46
            &&& e[4] == (size % 256) as u8 && e[5] == (size / 256 % 256) as u8
            &&& e[6] == (size / 0x1_0000 % 256) as u8 && e[7] == (size / 0x100_0000 % 256) as u8
            &&& e[8] == 0x57 && e[9] == 0x41 && e[10] == 0x56 && e[11] == 0x45
            &&& e[12] == 0x66 && e[13] == 0x6d && e[14] == 0x74 && e[15] == 0x20
            &&& e[16] == 16 && e[17] == 0 && e[18] == 0 && e[19] == 0
            &&& e[20] == 1 && e[21] == 0
            &&& e[22] == (ch % 256) as u8 && e[23] == (ch / 256) as u8
            &&& e[24] == (rate % 256) as u8 && e[25] == (rate / 256 % 256) as u8
            &&& e[26] == (rate / 0x1_0000 % 256) as u8 && e[27] == (rate / 0x100_0000) as u8
            &&& e[28] == (br % 256) as u8 && e[29] == (br / 256 % 256) as u8
            &&& e[30] == (br / 0x1_0000 % 256) as u8 && e[31] == (br / 0x100_0000 % 256) as u8
            &&& e[32] == ((ch as nat * 2) % 256) as u8 && e[33] == ((ch as nat * 2) / 256 % 256) as u8
            &&& e[34] == 16 && e[35] == 0
            &&& e[36] == 0x64 && e[37] == 0x61 && e[38] == 0x74 && e[39] == 0x61
            &&& e[40] == ((2 * n) % 256) as u8 && e[41] == ((2 * n) / 256 % 256) as u8
            &&& e[42] == ((2 * n) / 0x1_0000 % 256) as u8 && e[43] == ((2 * n) / 0x100_0000 % 256) as u8
        }),
{
    let size = 12 + 24 + 8 + n * 2;
    lemma_le4((size - 8) as nat);
    lemma_le4(16);
    lemma_le2(1);
    lemma_le2(ch as nat);
    lemma_le4(rate as nat);
    assert(rate * ch * 16 / 8 == rate as nat * ch as nat * 2) by (nonlinear_arith);
    lemma_le4((rate * ch * 16 / 8) as nat);
    assert(ch * 16 / 8 == ch as nat * 2) by (nonlinear_arith);
    lemma_le2((ch * 16 / 8) as nat);
    lemma_le2(16);
    lemma_le4((n * 2) as nat);
}

/// Encoding writes the header, then each sample as two bytes, least significant first: sample
/// `k` at bytes `44 + 2k` and `45 + 2k`.
pub proof fn lemma_encode_wav_layout(samples: Seq<i16>, rate: u32, ch: u16)
    ensures
        wav_pcm16(samples, rate, ch).len() == 44 + 2 * samples.len(),
        wav_pcm16(samples, rate, ch).subrange(0, 44) == wav_pcm16_header(samples.len(), rate, ch),
        forall|k: int|
            0 <= k < samples.len() ==> #[trigger] wav_pcm16(samples, rate, ch)[44 + 2 * k] == (samples[k] as u16
                % 256) as u8 && wav_pcm16(samples, rate, ch)[44 + 2 * k + 1] == (samples[k] as u16 / 256) as u8,
{
    let n = samples.len();
    lemma_wav_header_bytes(n, rate, ch);
    let hd = wav_pcm16_header(n, rate, ch);
    lemma_pcm16_sample_bytes(samples);
    let e = wav_pcm16(samples, rate, ch);
    assert(e == hd + pcm16_bytes(samples));
    assert(e.subrange(0, 44) =~= hd);
    assert forall|k: int| 0 <= k < n implies #[trigger] e[44 + 2 * k] == (samples[k] as u16 % 256) as u8 && e[44
        + 2 * k + 1] == (samples[k] as u16 / 256) as u8 by {
        assert(e[44 + 2 * k] == pcm16_bytes(samples)[2 * k]);
        assert(e[44 + 2 * k + 1] == pcm16_bytes(samples)[2 * k + 1]);
    }
}

} // verus!
