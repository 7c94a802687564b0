//! WAV (RIFF, 16-bit PCM) parsing and writing.
//!
//! A WAV file is the tag `RIFF`, a `u32` size, the tag `WAVE`, then chunks:
//! a four-byte id, a little-endian `u32` body size, the body, and a pad
//! byte when the size is odd. The `fmt ` chunk holds the format code
//! (1 = PCM), the channel count, the sample rate, the byte rate, the block
//! alignment and the bits per sample; the `data` chunk holds the samples.

use vstd::bytes::*;
use vstd::prelude::*;
use crate::text::{append_bytes, bytes_equal_at};

verus! {

/// Why bytes are not a supported WAV file.
#[derive(Clone, Copy, Debug, PartialEq, Eq, Structural)]
pub enum WavError {
    /// Fewer than the 44 bytes of a minimal header.
    TooShort,
    /// The file does not start with `RIFF`.
    InvalidRiff,
    /// Bytes 8 to 12 are not `WAVE`.
    InvalidWave,
    MissingFmt,
    MissingData,
    /// The format code is not 1 (PCM).
    UnsupportedFormat(u16),
    /// The samples are not 16-bit.
    UnsupportedBitsPerSample(u16),
}

/// What the header of a PCM WAV file says.
#[derive(Clone, Copy, Debug, PartialEq, Eq, Structural)]
pub struct WavFormat {
    pub channels: u16,
    pub sample_rate: u32,
    /// Where the sample bytes start.
    pub data_offset: usize,
    /// How many sample bytes there are: the `data` chunk's declared size,
    /// cut to the bytes present.
    pub data_len: usize,
}

pub open spec fn riff_tag() -> Seq<u8> {
    seq![0x52u8, 0x49u8, 0x46u8, 0x46u8]
}

pub open spec fn wave_tag() -> Seq<u8> {
    seq![0x57u8, 0x41u8, 0x56u8, 0x45u8]
}

pub open spec fn fmt_tag() -> Seq<u8> {
    seq![0x66u8, 0x6du8, 0x74u8, 0x20u8]
}

pub open spec fn data_tag() -> Seq<u8> {
    seq![0x64u8, 0x61u8, 0x74u8, 0x61u8]
}

/// Little-endian `u16` at byte `p`.
pub open spec fn u16_le_at(b: Seq<u8>, p: int) -> u16 {
    spec_u16_from_le_bytes(b.subrange(p, p + 2))
}

/// Little-endian `u32` at byte `p`.
pub open spec fn u32_le_at(b: Seq<u8>, p: int) -> u32 {
    spec_u32_from_le_bytes(b.subrange(p, p + 4))
}

/// The 16-bit sample stored at byte `p`.
pub open spec fn sample_at(b: Seq<u8>, p: int) -> i16 {
    u16_le_at(b, p) as i16
}

/// Where the chunk after a chunk at `pos` with a body of `size` bytes
/// starts: past the eight header bytes and the body, rounded up to even.
pub open spec fn next_chunk(pos: int, size: u32) -> int {
    let n = pos + 8 + size;
    if n % 2 != 0 {
        n + 1
    } else {
        n
    }
}

/// Walk the chunks from `pos` on: the body offset of the last `fmt `
/// chunk, and the body offset and declared size of the last `data` chunk,
/// starting from what was found before `pos`.
pub open spec fn scan_chunks(b: Seq<u8>, pos: int, fmt: Option<int>, data: Option<(int, u32)>) -> (
    Option<int>,
    Option<(int, u32)>,
)
    decreases (if pos < b.len() { b.len() - pos } else { 0int }),
{
    if pos < 0 || pos + 8 > b.len() {
        (fmt, data)
    } else {
        let id = b.subrange(pos, pos + 4);
        let size = u32_le_at(b, pos + 4);
        let fmt2 = if id == fmt_tag() { Some(pos + 8) } else { fmt };
        let data2 = if id == data_tag() { Some((pos + 8, size)) } else { data };
        scan_chunks(b, next_chunk(pos, size), fmt2, data2)
    }
}

/// The header checks pass and both chunks are there.
pub open spec fn chunks_found(b: Seq<u8>) -> bool {
    &&& b.len() >= 44
    &&& b.subrange(0, 4) == riff_tag()
    &&& b.subrange(8, 12) == wave_tag()
    &&& scan_chunks(b, 12, None, None).0 is Some
    &&& scan_chunks(b, 12, None, None).1 is Some
}

/// The `fmt ` chunk body runs past the end of the file where the format
/// fields are read: reading them would go out of bounds.
pub open spec fn fmt_truncated(b: Seq<u8>) -> bool {
    chunks_found(b) && {
        let fo = scan_chunks(b, 12, None, None).0->0;
        fo + 2 > b.len() || (u16_le_at(b, fo) == 1 && fo + 16 > b.len())
    }
}

/// The header of `b`: channels, sample rate, sample bytes' offset and
/// length; or the first reason it is not a 16-bit PCM WAV file.
pub open spec fn parse_wav_spec(b: Seq<u8>) -> Result<(u16, u32, int, int), WavError> {
    if b.len() < 44 {
        Err(WavError::TooShort)
    } else if b.subrange(0, 4) != riff_tag() {
        Err(WavError::InvalidRiff)
    } else if b.subrange(8, 12) != wave_tag() {
        Err(WavError::InvalidWave)
    } else {
        let found = scan_chunks(b, 12, None, None);
        match found.0 {
            None => Err(WavError::MissingFmt),
            Some(fo) => match found.1 {
                None => Err(WavError::MissingData),
                Some((doff, dsize)) => {
                    let format = u16_le_at(b, fo);
                    if format != 1 {
                        Err(WavError::UnsupportedFormat(format))
                    } else if u16_le_at(b, fo + 14) != 16 {
                        Err(WavError::UnsupportedBitsPerSample(u16_le_at(b, fo + 14)))
                    } else {
                        let available = b.len() - doff;
                        let len = if dsize <= available { dsize as int } else { available };
                        Ok((u16_le_at(b, fo + 2), u32_le_at(b, fo + 4), doff, len))
                    }
                },
            },
        }
    }
}

proof fn lemma_scan_offsets(b: Seq<u8>, pos: int, fmt: Option<int>, data: Option<(int, u32)>)
    requires
        fmt matches Some(f) ==> 0 <= f <= b.len(),
        data matches Some((d, s)) ==> 0 <= d <= b.len(),
    ensures
        scan_chunks(b, pos, fmt, data).0 matches Some(f) ==> 0 <= f <= b.len(),
        scan_chunks(b, pos, fmt, data).1 matches Some((d, s)) ==> 0 <= d <= b.len(),
    decreases (if pos < b.len() { b.len() - pos } else { 0int }),
{
    if pos < 0 || pos + 8 > b.len() {
    } else {
        let id = b.subrange(pos, pos + 4);
        let size = u32_le_at(b, pos + 4);
        let fmt2 = if id == fmt_tag() { Some(pos + 8) } else { fmt };
        let data2 = if id == data_tag() { Some((pos + 8, size)) } else { data };
        lemma_scan_offsets(b, next_chunk(pos, size), fmt2, data2);
    }
}

/// Walk the chunks of `data` from byte 12.
fn scan_wav_chunks(data: &[u8]) -> (r: (Option<usize>, Option<(usize, u32)>))
    requires
        data@.len() >= 12,
    ensures
        ({
            let s = scan_chunks(data@, 12, None, None);
            &&& (match r.0 {
                Some(f) => s.0 == Some(f as int),
                None => s.0 is None,
            })
            &&& (match r.1 {
                Some((d, size)) => s.1 == Some((d as int, size)),
                None => s.1 is None,
            })
        }),
{
    let n = data.len();
    let fmt_id: [u8; 4] = [0x66u8, 0x6du8, 0x74u8, 0x20u8];
    let data_id: [u8; 4] = [0x64u8, 0x61u8, 0x74u8, 0x61u8];
    proof {
        assert(fmt_id@ =~= fmt_tag());
        assert(data_id@ =~= data_tag());
    }
    let mut pos: usize = 12;
    let mut fmt: Option<usize> = None;
    let mut found: Option<(usize, u32)> = None;
    let ghost goal = scan_chunks(data@, 12, None, None);
    loop
        invariant
            n == data@.len(),
            fmt_id@ == fmt_tag(),
            data_id@ == data_tag(),
            12 <= pos,
            goal == scan_chunks(
                data@,
                pos as int,
                match fmt {
                    Some(f) => Some(f as int),
                    None => None,
                },
                match found {
                    Some((d, s)) => Some((d as int, s)),
                    None => None,
                },
            ),
        ensures
            pos + 8 > n,
            goal == scan_chunks(
                data@,
                pos as int,
                match fmt {
                    Some(f) => Some(f as int),
                    None => None,
                },
                match found {
                    Some((d, s)) => Some((d as int, s)),
                    None => None,
                },
            ),
        decreases n - pos,
    {
        if pos > n || n - pos < 8 {
            break;
        }
        let size = u32_from_le_bytes(&data[pos + 4..pos + 8]);
        proof {
            assert(data@.subrange(pos + 4, pos + 8) == data@.subrange(pos + 4, pos + 8));
        }
        let ghost fmt0 = match fmt {
            Some(f) => Some(f as int),
            None => None::<int>,
        };
        let ghost found0 = match found {
            Some((d, s)) => Some((d as int, s)),
            None => None::<(int, u32)>,
        };
        if bytes_equal_at(data, pos, fmt_id.as_slice()) {
            fmt = Some(pos + 8);
        } else if bytes_equal_at(data, pos, data_id.as_slice()) {
            found = Some((pos + 8, size));
        }
        proof {
            assert(fmt_tag() != data_tag()) by {
                assert(fmt_tag()[0] != data_tag()[0]);
            }
        }
        let next: u128 = pos as u128 + 8 + size as u128;
        let next = if next % 2 != 0 { next + 1 } else { next };
        if next > n as u128 {
            proof {
                let f2 = match fmt {
                    Some(f) => Some(f as int),
                    None => None::<int>,
                };
                let d2 = match found {
                    Some((d, s)) => Some((d as int, s)),
                    None => None::<(int, u32)>,
                };
                assert(goal == scan_chunks(data@, next as int, f2, d2));
            }
            pos = n;
            proof {
                let f2 = match fmt {
                    Some(f) => Some(f as int),
                    None => None::<int>,
                };
                let d2 = match found {
                    Some((d, s)) => Some((d as int, s)),
                    None => None::<(int, u32)>,
                };
                assert(scan_chunks(data@, n as int, f2, d2) == (f2, d2));
            }
            break;
        }
        pos = next as usize;
    }
    (fmt, found)
}

/// The bytes at `p..p + 4` are `tag`.
fn tag_at(data: &[u8], p: usize, tag: [u8; 4]) -> (r: bool)
    requires
        p + 4 <= data@.len(),
    ensures
        r == (data@.subrange(p as int, p + 4) == tag@),
{
    bytes_equal_at(data, p, tag.as_slice())
}

/// Read the header of a 16-bit PCM WAV file.
pub fn parse_wav(data: &[u8]) -> (r: Result<WavFormat, WavError>)
    requires
        !fmt_truncated(data@),
    ensures
        match r {
            Ok(f) => parse_wav_spec(data@) == Ok::<(u16, u32, int, int), WavError>(
                (f.channels, f.sample_rate, f.data_offset as int, f.data_len as int),
            ),
            Err(e) => parse_wav_spec(data@) == Err::<(u16, u32, int, int), WavError>(e),
        },
{
    let n = data.len();
    if n < 44 {
        return Err(WavError::TooShort);
    }
    let riff: [u8; 4] = [0x52u8, 0x49u8, 0x46u8, 0x46u8];
    let wave: [u8; 4] = [0x57u8, 0x41u8, 0x56u8, 0x45u8];
    proof {
        assert(riff@ =~= riff_tag());
        assert(wave@ =~= wave_tag());
    }
    if !tag_at(data, 0, riff) {
        return Err(WavError::InvalidRiff);
    }
    if !tag_at(data, 8, wave) {
        return Err(WavError::InvalidWave);
    }
    let (fmt, found) = scan_wav_chunks(data);
    proof {
        lemma_scan_offsets(data@, 12, None, None);
    }
    let fo = match fmt {
        Some(f) => f,
        None => return Err(WavError::MissingFmt),
    };
    let (doff, dsize) = match found {
        Some(d) => d,
        None => return Err(WavError::MissingData),
    };
    let format = u16_from_le_bytes(&data[fo..fo + 2]);
    if format != 1 {
        return Err(WavError::UnsupportedFormat(format));
    }
    let channels = u16_from_le_bytes(&data[fo + 2..fo + 4]);
    let sample_rate = u32_from_le_bytes(&data[fo + 4..fo + 8]);
    let bits = u16_from_le_bytes(&data[fo + 14..fo + 16]);
    if bits != 16 {
        return Err(WavError::UnsupportedBitsPerSample(bits));
    }
    let available = n - doff;
    let len = if (dsize as usize) <= available { dsize as usize } else { available };
    Ok(WavFormat { channels, sample_rate, data_offset: doff, data_len: len })
}

/// Whether reading the format fields of `data` would run past its end,
/// the one case `parse_wav` does not accept.
pub fn wav_fmt_truncated(data: &[u8]) -> (r: bool)
    ensures
        r == fmt_truncated(data@),
{
    let n = data.len();
    if n < 44 {
        return false;
    }
    let riff: [u8; 4] = [0x52u8, 0x49u8, 0x46u8, 0x46u8];
    let wave: [u8; 4] = [0x57u8, 0x41u8, 0x56u8, 0x45u8];
    proof {
        assert(riff@ =~= riff_tag());
        assert(wave@ =~= wave_tag());
    }
    if !tag_at(data, 0, riff) || !tag_at(data, 8, wave) {
        return false;
    }
    let (fmt, found) = scan_wav_chunks(data);
    proof {
        lemma_scan_offsets(data@, 12, None, None);
    }
    match (fmt, found) {
        (Some(fo), Some(_)) => {
            if n - fo < 2 {
                true
            } else {
                let format = u16_from_le_bytes(&data[fo..fo + 2]);
                format == 1 && n - fo < 16
            }
        },
        _ => false,
    }
}

/// The 16-bit samples in `data[offset..offset + len]`, two bytes each; an
/// odd last byte is left out.
pub fn pcm16_samples(data: &[u8], offset: usize, len: usize) -> (r: Vec<i16>)
    requires
        offset + len <= data@.len(),
    ensures
        r@.len() == len / 2,
        forall|k: int| 0 <= k < r@.len() ==> #[trigger] r@[k] == sample_at(data@, offset + 2 * k),
{
    let count = len / 2;
    let n = data.len();
    let mut out: Vec<i16> = Vec::new();
    let mut i: usize = 0;
    while i < count
        invariant
            n == data@.len(),
            i <= count,
            count == len / 2,
            offset + len <= data@.len(),
            out@.len() == i,
            forall|k: int| 0 <= k < i ==> #[trigger] out@[k] == sample_at(data@, offset + 2 * k),
        decreases count - i,
    {
        proof {
            assert(2 * i + 2 <= len) by (nonlinear_arith)
                requires
                    i < count,
                    count == len / 2,
            ;
        }
        let p = offset + 2 * i;
        let v = u16_from_le_bytes(&data[p..p + 2]);
        out.push(v as i16);
        i = i + 1;
    }
    out
}

/// A streaming reader of the samples of a WAV file held in memory.
pub struct WavStream {
    channels: u32,
    sample_rate: u32,
    data_offset: usize,
    data_end: usize,
    current_pos: usize,
    raw_data: Vec<u8>,
}

impl WavStream {
    pub closed spec fn channels_view(&self) -> u32 {
        self.channels
    }

    pub closed spec fn sample_rate_view(&self) -> u32 {
        self.sample_rate
    }

    /// Where the samples start.
    pub closed spec fn start(&self) -> int {
        self.data_offset as int
    }

    /// Where the samples end.
    pub closed spec fn end(&self) -> int {
        self.data_end as int
    }

    /// Where the next read starts.
    pub closed spec fn position(&self) -> int {
        self.current_pos as int
    }

    /// The whole file.
    pub closed spec fn bytes(&self) -> Seq<u8> {
        self.raw_data@
    }

    #[verifier::type_invariant]
    spec fn in_bounds(&self) -> bool {
        &&& self.data_offset <= self.current_pos <= self.data_end
        &&& self.data_end <= self.raw_data@.len()
        &&& self.channels <= u16::MAX
    }

    /// A stream over the samples of `data`, positioned at the first one.
    pub fn new(data: Vec<u8>) -> (r: Result<Self, WavError>)
        requires
            !fmt_truncated(data@),
        ensures
            match r {
                Ok(s) => parse_wav_spec(data@) matches Ok((c, rate, off, len)) && s.channels_view() == c
                    && s.sample_rate_view() == rate && s.start() == off && s.end() == off + len
                    && s.position() == off && s.bytes() == data@,
                Err(e) => parse_wav_spec(data@) == Err::<(u16, u32, int, int), WavError>(e),
            },
    {
        let n = data.len();
        let format = match parse_wav(data.as_slice()) {
            Ok(f) => f,
            Err(e) => return Err(e),
        };
        proof {
            lemma_scan_offsets(data@, 12, None, None);
            assert(format.data_offset + format.data_len <= data@.len());
        }
        Ok(WavStream {
            channels: format.channels as u32,
            sample_rate: format.sample_rate,
            data_offset: format.data_offset,
            data_end: format.data_offset + format.data_len,
            current_pos: format.data_offset,
            raw_data: data,
        })
    }

    pub fn channels(&self) -> (r: u32)
        ensures
            r == self.channels_view(),
    {
        self.channels
    }

    pub fn sample_rate(&self) -> (r: u32)
        ensures
            r == self.sample_rate_view(),
    {
        self.sample_rate
    }

    /// Go back to the first sample.
    pub fn reset(&mut self)
        ensures
            final(self).position() == old(self).start(),
            final(self).start() == old(self).start(),
            final(self).end() == old(self).end(),
            final(self).channels_view() == old(self).channels_view(),
            final(self).sample_rate_view() == old(self).sample_rate_view(),
            final(self).bytes() == old(self).bytes(),
    {
        proof {
            use_type_invariant(&*self);
        }
        self.current_pos = self.data_offset;
    }

    /// Read as many whole frames as fit in `capacity` samples and remain
    /// in the stream; returns their samples, interleaved.
    pub fn read_pcm_frames(&mut self, capacity: usize) -> (r: Vec<i16>)
        requires
            old(self).channels_view() > 0,
        ensures
            ({
                let ch = old(self).channels_view() as int;
                let cap = capacity as int;
                let frames = if cap / ch <= (old(self).end() - old(self).position()) / (2 * ch) {
                    cap / ch
                } else {
                    (old(self).end() - old(self).position()) / (2 * ch)
                };
                &&& r@.len() == frames * ch
                &&& forall|k: int| 0 <= k < r@.len() ==> #[trigger] r@[k] == sample_at(old(self).bytes(), old(self).position() + 2 * k)
                &&& final(self).position() == old(self).position() + frames * ch * 2
            }),
            final(self).start() == old(self).start(),
            final(self).end() == old(self).end(),
            final(self).channels_view() == old(self).channels_view(),
            final(self).sample_rate_view() == old(self).sample_rate_view(),
            final(self).bytes() == old(self).bytes(),
    {
        proof {
            use_type_invariant(&*self);
        }
        let channels = self.channels as usize;
        let frames_requested = capacity / channels;
        let bytes_per_frame = channels * 2;
        let bytes_remaining = self.data_end - self.current_pos;
        let frames_available = bytes_remaining / bytes_per_frame;
        let frames = if frames_requested <= frames_available { frames_requested } else { frames_available };
        proof {
            assert(frames * bytes_per_frame <= bytes_remaining) by (nonlinear_arith)
                requires
                    frames <= frames_available,
                    frames_available == bytes_remaining / bytes_per_frame,
                    bytes_per_frame > 0,
            ;
            assert(frames * channels * 2 == frames * bytes_per_frame) by (nonlinear_arith)
                requires
                    bytes_per_frame == channels * 2,
            ;
        }
        let total = frames * bytes_per_frame;
        let out = pcm16_samples(self.raw_data.as_slice(), self.current_pos, total);
        proof {
            assert(total / 2 == frames * channels);
        }
        self.current_pos = self.current_pos + total;
        out
    }
}

/// The bytes of `samples`, two little-endian bytes each.
pub open spec fn pcm_bytes(samples: Seq<i16>) -> Seq<u8>
    decreases samples.len(),
{
    if samples.len() == 0 {
        Seq::empty()
    } else {
        pcm_bytes(samples.drop_last()) + spec_u16_to_le_bytes(samples.last() as u16)
    }
}

/// The 44-byte header and the samples of a 16-bit PCM WAV file.
pub open spec fn wav_bytes(channels: u16, sample_rate: u32, samples: Seq<i16>) -> Seq<u8> {
    let data_size = (2 * samples.len()) as u32;
    let block_align = (2 * channels) as u16;
    riff_tag() + spec_u32_to_le_bytes((36 + data_size) as u32) + wave_tag() + fmt_tag()
        + spec_u32_to_le_bytes(16u32) + spec_u16_to_le_bytes(1u16) + spec_u16_to_le_bytes(channels)
        + spec_u32_to_le_bytes(sample_rate) + spec_u32_to_le_bytes((sample_rate * block_align) as u32)
        + spec_u16_to_le_bytes(block_align) + spec_u16_to_le_bytes(16u16) + data_tag()
        + spec_u32_to_le_bytes(data_size) + pcm_bytes(samples)
}

/// What `build_test_wav` needs to compute its header fields without
/// overflow.
pub open spec fn wav_fields_fit(channels: u16, sample_rate: u32, sample_count: int) -> bool {
    &&& 2 * channels <= u16::MAX
    &&& sample_rate * (2 * channels) <= u32::MAX
    &&& 36 + 2 * sample_count <= u32::MAX
}

/// A 16-bit PCM WAV file with the given channels, rate and samples.
pub fn build_test_wav(channels: u16, sample_rate: u32, samples: &[i16]) -> (r: Vec<u8>)
    requires
        wav_fields_fit(channels, sample_rate, samples@.len() as int),
    ensures
        r@ == wav_bytes(channels, sample_rate, samples@),
{
    proof {
        lemma_auto_spec_u16_to_from_le_bytes();
        lemma_auto_spec_u32_to_from_le_bytes();
    }
    let bits_per_sample: u16 = 16;
    proof {
        assert(channels * (bits_per_sample / 8) == 2 * channels) by (nonlinear_arith)
            requires
                bits_per_sample == 16,
        ;
    }
    let block_align: u16 = channels * (bits_per_sample / 8);
    proof {
        assert(sample_rate * (block_align as u32) == sample_rate * (2 * channels));
    }
    let byte_rate: u32 = sample_rate * block_align as u32;
    let data_size: u32 = (samples.len() * 2) as u32;
    let file_size: u32 = 36 + data_size;
    let mut wav: Vec<u8> = Vec::new();
    let riff: [u8; 4] = [0x52u8, 0x49u8, 0x46u8, 0x46u8];
    let wave: [u8; 4] = [0x57u8, 0x41u8, 0x56u8, 0x45u8];
    let fmt: [u8; 4] = [0x66u8, 0x6du8, 0x74u8, 0x20u8];
    let data: [u8; 4] = [0x64u8, 0x61u8, 0x74u8, 0x61u8];
    proof {
        assert(riff@ =~= riff_tag());
        assert(wave@ =~= wave_tag());
        assert(fmt@ =~= fmt_tag());
        assert(data@ =~= data_tag());
    }
    append_bytes(&mut wav, riff.as_slice());
    append_bytes(&mut wav, u32_to_le_bytes(file_size).as_slice());
    append_bytes(&mut wav, wave.as_slice());
    append_bytes(&mut wav, fmt.as_slice());
    append_bytes(&mut wav, u32_to_le_bytes(16u32).as_slice());
    append_bytes(&mut wav, u16_to_le_bytes(1u16).as_slice());
    append_bytes(&mut wav, u16_to_le_bytes(channels).as_slice());
    append_bytes(&mut wav, u32_to_le_bytes(sample_rate).as_slice());
    append_bytes(&mut wav, u32_to_le_bytes(byte_rate).as_slice());
    append_bytes(&mut wav, u16_to_le_bytes(block_align).as_slice());
    append_bytes(&mut wav, u16_to_le_bytes(bits_per_sample).as_slice());
    append_bytes(&mut wav, data.as_slice());
    append_bytes(&mut wav, u32_to_le_bytes(data_size).as_slice());
    let ghost header = wav@;
    proof {
        let n = samples@.len();
        assert(data_size == (2 * n) as u32);
        assert(block_align == (2 * channels) as u16);
        assert(header =~= riff_tag() + spec_u32_to_le_bytes((36 + data_size) as u32) + wave_tag() + fmt_tag()
            + spec_u32_to_le_bytes(16u32) + spec_u16_to_le_bytes(1u16) + spec_u16_to_le_bytes(channels)
            + spec_u32_to_le_bytes(sample_rate) + spec_u32_to_le_bytes((sample_rate * block_align) as u32)
            + spec_u16_to_le_bytes(block_align) + spec_u16_to_le_bytes(16u16) + data_tag()
            + spec_u32_to_le_bytes(data_size));
    }
    let mut i: usize = 0;
    proof {
        assert(samples@.subrange(0, 0) =~= Seq::<i16>::empty());
        assert(wav@ =~= header + pcm_bytes(samples@.subrange(0, 0)));
    }
    while i < samples.len()
        invariant
            i <= samples@.len(),
            wav@ == header + pcm_bytes(samples@.subrange(0, i as int)),
        decreases samples@.len() - i,
    {
        let s = samples[i];
        append_bytes(&mut wav, u16_to_le_bytes(s as u16).as_slice());
        proof {
            let pre = samples@.subrange(0, i + 1);
            assert(pre.drop_last() =~= samples@.subrange(0, i as int));
            assert(pre.last() == s);
        }
        i = i + 1;
    }
    proof {
        assert(samples@.subrange(0, samples@.len() as int) =~= samples@);
    }
    wav
}

proof fn lemma_pcm_bytes(samples: Seq<i16>)
    ensures
        pcm_bytes(samples).len() == 2 * samples.len(),
        forall|k: int| 0 <= k < samples.len() ==> #[trigger] pcm_bytes(samples).subrange(2 * k, 2 * k + 2)
            == spec_u16_to_le_bytes(samples[k] as u16),
    decreases samples.len(),
{
    lemma_auto_spec_u16_to_from_le_bytes();
    if samples.len() > 0 {
        let d = samples.drop_last();
        lemma_pcm_bytes(d);
        let p = pcm_bytes(d);
        let last = spec_u16_to_le_bytes(samples.last() as u16);
        assert forall|k: int| 0 <= k < samples.len() implies #[trigger] pcm_bytes(samples).subrange(2 * k, 2 * k + 2)
            == spec_u16_to_le_bytes(samples[k] as u16) by {
            if k < d.len() {
                assert(d[k] == samples[k]);
                assert(pcm_bytes(samples).subrange(2 * k, 2 * k + 2) =~= p.subrange(2 * k, 2 * k + 2));
            } else {
                assert(pcm_bytes(samples).subrange(2 * k, 2 * k + 2) =~= last);
            }
        }
    }
}

/// A file written by `build_test_wav` reads back: its header parses to the
/// channels and rate it was written with, its 2 * n sample bytes start at
/// byte 44, and they hold the samples written, in order.
pub proof fn lemma_wav_roundtrip(channels: u16, sample_rate: u32, samples: Seq<i16>)
    requires
        wav_fields_fit(channels, sample_rate, samples.len() as int),
    ensures
        !fmt_truncated(wav_bytes(channels, sample_rate, samples)),
        parse_wav_spec(wav_bytes(channels, sample_rate, samples)) == Ok::<(u16, u32, int, int), WavError>(
            (channels, sample_rate, 44, 2 * samples.len() as int),
        ),
        forall|k: int| 0 <= k < samples.len() ==> #[trigger] sample_at(wav_bytes(channels, sample_rate, samples), 44 + 2 * k)
            == samples[k],
{
    lemma_auto_spec_u16_to_from_le_bytes();
    lemma_auto_spec_u32_to_from_le_bytes();
    lemma_pcm_bytes(samples);
    let n = samples.len();
    let b = wav_bytes(channels, sample_rate, samples);
    let data_size = (2 * n) as u32;
    let block_align = (2 * channels) as u16;
    let pcm = pcm_bytes(samples);
    let head = riff_tag() + spec_u32_to_le_bytes((36 + data_size) as u32) + wave_tag() + fmt_tag()
        + spec_u32_to_le_bytes(16u32) + spec_u16_to_le_bytes(1u16) + spec_u16_to_le_bytes(channels)
        + spec_u32_to_le_bytes(sample_rate) + spec_u32_to_le_bytes((sample_rate * block_align) as u32)
        + spec_u16_to_le_bytes(block_align) + spec_u16_to_le_bytes(16u16) + data_tag()
        + spec_u32_to_le_bytes(data_size);
    assert(head.len() == 44);
    assert(b == head + pcm);
    assert(b.len() == 44 + 2 * n);
    assert(b.subrange(0, 4) =~= riff_tag());
    assert(b.subrange(8, 12) =~= wave_tag());
    assert(b.subrange(12, 16) =~= fmt_tag());
    assert(b.subrange(16, 20) =~= spec_u32_to_le_bytes(16u32));
    assert(b.subrange(20, 22) =~= spec_u16_to_le_bytes(1u16));
    assert(b.subrange(22, 24) =~= spec_u16_to_le_bytes(channels));
    assert(b.subrange(24, 28) =~= spec_u32_to_le_bytes(sample_rate));
    assert(b.subrange(34, 36) =~= spec_u16_to_le_bytes(16u16));
    assert(b.subrange(36, 40) =~= data_tag());
    assert(b.subrange(40, 44) =~= spec_u32_to_le_bytes(data_size));
    assert(fmt_tag() != data_tag()) by {
        assert(fmt_tag()[0] != data_tag()[0]);
    }
    assert(data_size == 2 * n);
    assert(next_chunk(12, 16) == 36);
    assert(next_chunk(36, data_size) == 44 + 2 * n);
    let end = scan_chunks(b, 44 + 2 * n as int, Some(20int), Some((44int, data_size)));
    assert(end == (Some(20int), Some((44int, data_size))));
    assert(scan_chunks(b, 36, Some(20int), None) == end);
    assert(scan_chunks(b, 12, None, None) == scan_chunks(b, 36, Some(20int), None));
    assert forall|k: int| 0 <= k < n implies #[trigger] sample_at(b, 44 + 2 * k) == samples[k] by {
        assert(b.subrange(44 + 2 * k, 44 + 2 * k + 2) =~= pcm.subrange(2 * k, 2 * k + 2));
        let s = samples[k];
        assert((s as u16) as i16 == s) by (bit_vector);
    }
}


/// `got` holds the samples of `b` from byte `start` on, one after another.
pub open spec fn samples_from(b: Seq<u8>, start: int, got: Seq<i16>) -> bool {
    forall|k: int| 0 <= k < got.len() ==> #[trigger] got[k] == sample_at(b, start + 2 * k)
}

/// Successive reads of a stream deliver consecutive samples: when the
/// samples read so far are those from `start` up to `pos`, and a read at
/// `pos` returns `r`, the two together are the samples from `start` up to
/// where that read stopped.
pub proof fn lemma_reads_continue(b: Seq<u8>, start: int, pos: int, got: Seq<i16>, r: Seq<i16>)
    requires
        pos == start + 2 * got.len(),
        samples_from(b, start, got),
        samples_from(b, pos, r),
    ensures
        samples_from(b, start, got + r),
        pos + 2 * r.len() == start + 2 * (got + r).len(),
{
    assert forall|k: int| 0 <= k < (got + r).len() implies #[trigger] (got + r)[k] == sample_at(b, start + 2 * k) by {
        if k >= got.len() {
            assert(r[k - got.len()] == sample_at(b, pos + 2 * (k - got.len())));
            assert(pos + 2 * (k - got.len()) == start + 2 * k);
        }
    }
}

/// Whatever reads of a stream over a WAV file built from `samples` have
/// delivered so far, counted from the first sample, is a prefix of
/// `samples`; once the reads reach the end of the data, it is all of them.
pub proof fn lemma_stream_reads_wav(channels: u16, sample_rate: u32, samples: Seq<i16>, got: Seq<i16>)
    requires
        wav_fields_fit(channels, sample_rate, samples.len() as int),
        got.len() <= samples.len(),
        samples_from(wav_bytes(channels, sample_rate, samples), 44, got),
    ensures
        got == samples.take(got.len() as int),
        got.len() == samples.len() ==> got == samples,
{
    lemma_wav_roundtrip(channels, sample_rate, samples);
    assert forall|k: int| 0 <= k < got.len() implies got[k] == samples.take(got.len() as int)[k] by {
        assert(got[k] == sample_at(wav_bytes(channels, sample_rate, samples), 44 + 2 * k));
    }
    assert(got =~= samples.take(got.len() as int));
    if got.len() == samples.len() {
        assert(samples.take(got.len() as int) =~= samples);
    }
}

} // verus!
