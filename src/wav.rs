//! The WAV file held in memory: header fields and raw sample bytes.
use crate::codec::{
    lemma_le_value_bound, lemma_span_bytes_len, lemma_span_bytes_wrap, read_span, span_bytes,
    span_value, uint_to_bytes,
};
use crate::error::WavError;
use crate::scale::{
    bytes_per_sample, depth_change_allowed, depth_in_range, round_up_to_byte,
    scale_sample_bit_depth, scaled_sample,
};
use vstd::arithmetic::div_mod::lemma_fundamental_div_mod_converse_div;
use vstd::prelude::*;

verus! {

/// Length of the canonical header: RIFF chunk, 16-byte `fmt` subchunk, `data` subchunk header.
pub const HEADER_LEN: usize = 44;

/// A WAV file with a canonical 44-byte header. The four identifier fields are tag
/// bytes read most significant first; every other numeric field is read in the
/// byte order given by `little_endian`, which is fixed when the file is parsed.
#[derive(Clone, Debug, PartialEq, Eq)]
pub struct WavFile {
    pub chunk_id: u32,
    pub chunk_size: u32,
    pub format: u32,
    pub subchunk_id: u32,
    pub subchunk_size: u32,
    pub audio_format: u16,
    pub channel_no: u16,
    pub sample_rate: u32,
    pub byte_rate: u32,
    pub block_align: u16,
    pub bit_depth: u16,
    pub data_id: u32,
    pub data_size: u32,
    pub audio_data: Vec<u8>,
    pub little_endian: bool,
}

/// The mathematical content of a `WavFile`: its fields, with the samples as a sequence.
pub struct WavModel {
    pub chunk_id: u32,
    pub chunk_size: u32,
    pub format: u32,
    pub subchunk_id: u32,
    pub subchunk_size: u32,
    pub audio_format: u16,
    pub channel_no: u16,
    pub sample_rate: u32,
    pub byte_rate: u32,
    pub block_align: u16,
    pub bit_depth: u16,
    pub data_id: u32,
    pub data_size: u32,
    pub audio_data: Seq<u8>,
    pub little_endian: bool,
}

impl View for WavFile {
    type V = WavModel;

    open spec fn view(&self) -> WavModel {
        WavModel {
            chunk_id: self.chunk_id,
            chunk_size: self.chunk_size,
            format: self.format,
            subchunk_id: self.subchunk_id,
            subchunk_size: self.subchunk_size,
            audio_format: self.audio_format,
            channel_no: self.channel_no,
            sample_rate: self.sample_rate,
            byte_rate: self.byte_rate,
            block_align: self.block_align,
            bit_depth: self.bit_depth,
            data_id: self.data_id,
            data_size: self.data_size,
            audio_data: self.audio_data@,
            little_endian: self.little_endian,
        }
    }
}

impl WavModel {
    /// The header agrees with the samples: sizes count the sample bytes, and the frame
    /// size and byte rate follow from the channel count, depth and sample rate.
    pub open spec fn wf(self) -> bool {
        &&& self.chunk_size == self.data_size + 36
        &&& self.data_size == self.audio_data.len()
        &&& self.block_align == self.channel_no * bytes_per_sample(self.bit_depth as nat)
        &&& self.byte_rate == self.sample_rate * self.block_align
    }

    /// The header fields that re-scaling to `new` bits rewrites fit their widths.
    pub open spec fn rescaled_fields_fit(self, new: nat) -> bool {
        let nb = bytes_per_sample(new);
        &&& self.channel_no * nb <= u16::MAX
        &&& self.sample_rate * (self.channel_no * nb) <= u32::MAX
        &&& self.audio_data.len() / bytes_per_sample(self.bit_depth as nat) * nb + 36 <= u32::MAX
    }
}

/// Sample `i` of `a`, when each sample takes `width` bytes.
pub open spec fn sample_at(a: Seq<u8>, i: int, width: int, little: bool) -> nat {
    field(a, i * width, width, little)
}

/// The first `k` samples of `a`, each taken from `old` to `new` bits and written in
/// the bytes that `new` bits take.
pub open spec fn rescaled_prefix(a: Seq<u8>, old: nat, new: nat, little: bool, k: nat) -> Seq<
    u8,
>
    decreases k,
{
    if k == 0 {
        Seq::empty()
    } else {
        let s = sample_at(a, k - 1, bytes_per_sample(old) as int, little);
        rescaled_prefix(a, old, new, little, (k - 1) as nat) + span_bytes(
            scaled_sample(s, old, new),
            bytes_per_sample(new),
            little,
        )
    }
}

/// Every whole sample of `a`, in order, taken from `old` to `new` bits; bytes after
/// the last whole sample are dropped.
pub open spec fn rescaled_samples(a: Seq<u8>, old: nat, new: nat, little: bool) -> Seq<u8> {
    rescaled_prefix(a, old, new, little, a.len() / bytes_per_sample(old))
}

/// `m` with its samples re-scaled to `new` bits, its depth rounded up to whole bytes
/// and the fields that depend on them recomputed.
pub open spec fn modified(m: WavModel, new: u16) -> Result<WavModel, WavError> {
    if !depth_change_allowed(m.bit_depth as nat, new as nat) {
        Err(WavError::UnsupportedBitDepth { current: m.bit_depth, requested: new })
    } else {
        let depth = round_up_to_byte(new as nat);
        let samples = rescaled_samples(m.audio_data, m.bit_depth as nat, new as nat, m.little_endian);
        let block_align = m.channel_no * (depth / 8);
        Ok(
            WavModel {
                chunk_size: (samples.len() + 36) as u32,
                byte_rate: (m.sample_rate * block_align) as u32,
                block_align: block_align as u16,
                bit_depth: depth as u16,
                data_size: samples.len() as u32,
                audio_data: samples,
                ..m
            },
        )
    }
}

pub(crate) proof fn lemma_rescaled_prefix_step(a: Seq<u8>, old: nat, new: nat, little: bool, k: nat)
    ensures
        rescaled_prefix(a, old, new, little, k + 1) == rescaled_prefix(a, old, new, little, k)
            + span_bytes(
            scaled_sample(sample_at(a, k as int, bytes_per_sample(old) as int, little), old, new),
            bytes_per_sample(new),
            little,
        ),
{
}

proof fn lemma_rescaled_prefix_len(a: Seq<u8>, old: nat, new: nat, little: bool, k: nat)
    ensures
        rescaled_prefix(a, old, new, little, k).len() == k * bytes_per_sample(new),
    decreases k,
{
    let nb = bytes_per_sample(new);
    if k > 0 {
        let j = (k - 1) as nat;
        let s = sample_at(a, k - 1, bytes_per_sample(old) as int, little);
        lemma_rescaled_prefix_len(a, old, new, little, j);
        lemma_span_bytes_len(scaled_sample(s, old, new), nb, little);
        assert(rescaled_prefix(a, old, new, little, k) == rescaled_prefix(a, old, new, little, j)
            + span_bytes(scaled_sample(s, old, new), nb, little));
        assert(k * nb == j * nb + nb) by (nonlinear_arith)
            requires
                k == j + 1,
        ;
    } else {
        assert(k * nb == 0) by (nonlinear_arith)
            requires
                k == 0,
        ;
    }
}

/// The 44 header bytes that stand for `m` in a file.
pub open spec fn header_bytes(m: WavModel) -> Seq<u8> {
    let e = m.little_endian;
    span_bytes(m.chunk_id as nat, 4, false) + span_bytes(m.chunk_size as nat, 4, e) + span_bytes(
        m.format as nat,
        4,
        false,
    ) + span_bytes(m.subchunk_id as nat, 4, false) + span_bytes(m.subchunk_size as nat, 4, e)
        + span_bytes(m.audio_format as nat, 2, e) + span_bytes(m.channel_no as nat, 2, e)
        + span_bytes(m.sample_rate as nat, 4, e) + span_bytes(m.byte_rate as nat, 4, e)
        + span_bytes(m.block_align as nat, 2, e) + span_bytes(m.bit_depth as nat, 2, e)
        + span_bytes(m.data_id as nat, 4, false) + span_bytes(m.data_size as nat, 4, e)
}

/// The bytes of a file that holds `m`: its header, then its samples as they are.
pub open spec fn file_bytes(m: WavModel) -> Seq<u8> {
    header_bytes(m) + m.audio_data
}

/// The value of the `n` bytes of `b` at `offset`.
pub open spec fn field(b: Seq<u8>, offset: int, n: int, little: bool) -> nat {
    span_value(b.subrange(offset, offset + n), little)
}

/// What a buffer holds as a WAV file. The byte order is the one under which the RIFF
/// chunk size plus 8 equals the buffer's length, little-endian where both do.
pub open spec fn parsed(b: Seq<u8>) -> Result<WavModel, WavError> {
    let size_le = field(b, 4, 4, true);
    let size_be = field(b, 4, 4, false);
    if b.len() < 12 {
        Err(WavError::OutOfBounds { offset: 0, len: 12, available: b.len() as usize })
    } else if size_le + 8 != b.len() && size_be + 8 != b.len() {
        Err(
            WavError::AmbiguousOrCorruptHeader {
                size_le: size_le as u32,
                size_be: size_be as u32,
                buffer_len: b.len() as usize,
            },
        )
    } else if b.len() < 44 {
        Err(WavError::OutOfBounds { offset: 12, len: 32, available: b.len() as usize })
    } else {
        let e = size_le + 8 == b.len();
        let subchunk_size = field(b, 16, 4, e);
        if subchunk_size != 16 {
            Err(WavError::UnsupportedChunkLayout { subchunk_size: subchunk_size as u32 })
        } else {
            Ok(
                WavModel {
                    chunk_id: field(b, 0, 4, false) as u32,
                    chunk_size: field(b, 4, 4, e) as u32,
                    format: field(b, 8, 4, false) as u32,
                    subchunk_id: field(b, 12, 4, false) as u32,
                    subchunk_size: subchunk_size as u32,
                    audio_format: field(b, 20, 2, e) as u16,
                    channel_no: field(b, 22, 2, e) as u16,
                    sample_rate: field(b, 24, 4, e) as u32,
                    byte_rate: field(b, 28, 4, e) as u32,
                    block_align: field(b, 32, 2, e) as u16,
                    bit_depth: field(b, 34, 2, e) as u16,
                    data_id: field(b, 36, 4, false) as u32,
                    data_size: field(b, 40, 4, e) as u32,
                    audio_data: b.subrange(44, b.len() as int),
                    little_endian: e,
                },
            )
        }
    }
}

/// Appends the bytes of `v` to `out`.
fn put(out: &mut Vec<u8>, v: u32, len: usize, little: bool)
    ensures
        final(out)@ == old(out)@ + span_bytes(v as nat, len as nat, little),
{
    let mut bytes = uint_to_bytes(v, len, little);
    out.append(&mut bytes);
}

impl WavFile {
    /// Reads a WAV file from its bytes. The RIFF chunk size decides the byte order:
    /// little-endian if it accounts for the buffer's length read that way, else
    /// big-endian if it does read that way; otherwise the header is rejected.
    pub fn parse(data: Vec<u8>) -> (r: Result<WavFile, WavError>)
        ensures
            match r {
                Ok(w) => parsed(data@) == Ok::<WavModel, WavError>(w@),
                Err(e) => parsed(data@) == Err::<WavModel, WavError>(e),
            },
    {
        let mut data = data;
        let n: usize = data.len();
        if n < 12 {
            return Err(WavError::OutOfBounds { offset: 0, len: 12, available: n });
        }
        let size_le = read_span(&data, 4, 4, true);
        let size_be = read_span(&data, 4, 4, false);
        let fits_le = size_le as u64 + 8 == n as u64;
        let fits_be = size_be as u64 + 8 == n as u64;
        if !fits_le && !fits_be {
            return Err(
                WavError::AmbiguousOrCorruptHeader { size_le, size_be, buffer_len: n },
            );
        }
        if n < HEADER_LEN {
            return Err(WavError::OutOfBounds { offset: 12, len: 32, available: n });
        }
        let e = fits_le;
        let subchunk_size = read_span(&data, 16, 4, e);
        if subchunk_size != 16 {
            return Err(WavError::UnsupportedChunkLayout { subchunk_size });
        }
        let chunk_id = read_span(&data, 0, 4, false);
        let chunk_size = read_span(&data, 4, 4, e);
        let format = read_span(&data, 8, 4, false);
        let subchunk_id = read_span(&data, 12, 4, false);
        let audio_format = read_span(&data, 20, 2, e);
        let channel_no = read_span(&data, 22, 2, e);
        let sample_rate = read_span(&data, 24, 4, e);
        let byte_rate = read_span(&data, 28, 4, e);
        let block_align = read_span(&data, 32, 2, e);
        let bit_depth = read_span(&data, 34, 2, e);
        let data_id = read_span(&data, 36, 4, false);
        let data_size = read_span(&data, 40, 4, e);
        proof {
            lemma_two_byte_field(data@, 20, e);
            lemma_two_byte_field(data@, 22, e);
            lemma_two_byte_field(data@, 32, e);
            lemma_two_byte_field(data@, 34, e);
        }
        let audio_data = data.split_off(HEADER_LEN);
        Ok(
            WavFile {
                chunk_id,
                chunk_size,
                format,
                subchunk_id,
                subchunk_size,
                audio_format: audio_format as u16,
                channel_no: channel_no as u16,
                sample_rate,
                byte_rate,
                block_align: block_align as u16,
                bit_depth: bit_depth as u16,
                data_id,
                data_size,
                audio_data,
                little_endian: e,
            },
        )
    }

    /// The bytes of this file: the 44-byte header, then the samples as they are.
    pub fn to_bytes(&self) -> (r: Vec<u8>)
        ensures
            r@ == file_bytes(self@),
    {
        let e = self.little_endian;
        let mut out: Vec<u8> = Vec::new();
        put(&mut out, self.chunk_id, 4, false);
        put(&mut out, self.chunk_size, 4, e);
        put(&mut out, self.format, 4, false);
        put(&mut out, self.subchunk_id, 4, false);
        put(&mut out, self.subchunk_size, 4, e);
        put(&mut out, self.audio_format as u32, 2, e);
        put(&mut out, self.channel_no as u32, 2, e);
        put(&mut out, self.sample_rate, 4, e);
        put(&mut out, self.byte_rate, 4, e);
        put(&mut out, self.block_align as u32, 2, e);
        put(&mut out, self.bit_depth as u32, 2, e);
        put(&mut out, self.data_id, 4, false);
        put(&mut out, self.data_size, 4, e);
        assert(out@ == header_bytes(self@));
        let ghost header = out@;
        let mut i: usize = 0;
        while i < self.audio_data.len()
            invariant
                i <= self.audio_data@.len(),
                out@ == header + self.audio_data@.subrange(0, i as int),
            decreases self.audio_data@.len() - i,
        {
            out.push(self.audio_data[i]);
            i = i + 1;
            assert(out@ =~= header + self.audio_data@.subrange(0, i as int));
        }
        assert(self.audio_data@.subrange(0, i as int) =~= self.audio_data@);
        out
    }
}

impl WavFile {
    /// Whether `modify_bit_depth` may be asked for `bit_depth`: both depths are
    /// within one to 32 bits and the header fields it rewrites fit their widths.
    pub fn can_modify_bit_depth(&self, bit_depth: u16) -> (r: bool)
        ensures
            r == (depth_in_range(self.bit_depth as nat) && depth_in_range(bit_depth as nat)
                && self@.rescaled_fields_fit(bit_depth as nat)),
    {
        let old_depth = self.bit_depth;
        if old_depth < 1 || old_depth > 32 || bit_depth < 1 || bit_depth > 32 {
            return false;
        }
        let mut cur_bytes: u64 = (old_depth / 8) as u64;
        if old_depth % 8 != 0 {
            cur_bytes = cur_bytes + 1;
        }
        let mut new_bytes: u64 = (bit_depth / 8) as u64;
        if bit_depth % 8 != 0 {
            new_bytes = new_bytes + 1;
        }
        assert(new_bytes <= 4);
        assert(self.channel_no as u64 * new_bytes <= 0xffff * 4) by (nonlinear_arith)
            requires
                new_bytes <= 4,
                self.channel_no <= 0xffff,
        ;
        let block_align: u64 = self.channel_no as u64 * new_bytes;
        if block_align > 0xffff {
            return false;
        }
        let samples: u64 = self.audio_data.len() as u64 / cur_bytes;
        assert(self.sample_rate as u64 * block_align <= 0xffff_ffff * 0xffff) by (nonlinear_arith)
            requires
                block_align <= 0xffff,
                self.sample_rate <= 0xffff_ffff,
        ;
        if self.sample_rate as u64 * block_align > 0xffff_ffff {
            return false;
        }
        if samples > 0xffff_ffff {
            assert(samples * new_bytes + 36 > 0xffff_ffff) by (nonlinear_arith)
                requires
                    samples > 0xffff_ffff,
                    new_bytes >= 1,
            ;
            return false;
        }
        assert(samples * new_bytes <= 0xffff_ffff * 4) by (nonlinear_arith)
            requires
                samples <= 0xffff_ffff,
                new_bytes <= 4,
        ;
        samples * new_bytes + 36 <= 0xffff_ffff
    }

    /// Re-scales every whole sample from the current depth to `bit_depth`, keeping
    /// the byte order; a depth that is not a whole number of bytes is stored at the
    /// next whole byte. Bytes after the last whole sample are dropped. The depth,
    /// frame size, byte rate and both sizes are then recomputed. A change between two
    /// unequal depths of which neither is a whole number of bytes is refused, and the
    /// file is left as it was.
    pub fn modify_bit_depth(&mut self, bit_depth: u16) -> (r: Result<(), WavError>)
        requires
            depth_in_range(old(self).bit_depth as nat),
            depth_in_range(bit_depth as nat),
            old(self)@.rescaled_fields_fit(bit_depth as nat),
        ensures
            match r {
                Ok(()) => modified(old(self)@, bit_depth) == Ok::<WavModel, WavError>(final(self)@),
                Err(e) => modified(old(self)@, bit_depth) == Err::<WavModel, WavError>(e)
                    && final(self)@ == old(self)@,
            },
            r is Ok ==> final(self)@.wf() && final(self).little_endian == old(self).little_endian,
    {
        let old_depth = self.bit_depth;
        if !(old_depth % 8 == 0 || bit_depth % 8 == 0 || old_depth == bit_depth) {
            return Err(WavError::UnsupportedBitDepth { current: old_depth, requested: bit_depth });
        }
        let mut cur_bytes: usize = (old_depth / 8) as usize;
        if old_depth % 8 != 0 {
            cur_bytes = cur_bytes + 1;
        }
        let mut new_bytes: usize = (bit_depth / 8) as usize;
        if bit_depth % 8 != 0 {
            new_bytes = new_bytes + 1;
        }
        let e = self.little_endian;
        let n: usize = self.audio_data.len();
        let ghost a = self.audio_data@;
        let ghost ob = bytes_per_sample(old_depth as nat);
        let ghost nb = bytes_per_sample(bit_depth as nat);
        assert(cur_bytes == ob && new_bytes == nb);
        let mut modified_audio: Vec<u8> = Vec::new();
        let mut index: usize = 0;
        let ghost mut k: nat = 0;
        while n - index >= cur_bytes
            invariant
                self@ == old(self)@,
                a == self.audio_data@,
                n == a.len(),
                1 <= cur_bytes <= 4,
                1 <= new_bytes <= 4,
                cur_bytes == ob,
                new_bytes == nb,
                ob == bytes_per_sample(old_depth as nat),
                nb == bytes_per_sample(bit_depth as nat),
                e == self.little_endian,
                old_depth == self.bit_depth,
                depth_change_allowed(old_depth as nat, bit_depth as nat),
                depth_in_range(old_depth as nat),
                depth_in_range(bit_depth as nat),
                index <= n,
                index == k * ob,
                modified_audio@ == rescaled_prefix(a, old_depth as nat, bit_depth as nat, e, k),
            decreases n - index,
        {
            let val = read_span(&self.audio_data, index, cur_bytes, e);
            let s = scale_sample_bit_depth(val, old_depth, bit_depth);
            let mut bytes = uint_to_bytes(s, new_bytes, e);
            proof {
                lemma_span_bytes_wrap(
                    scaled_sample(val as nat, old_depth as nat, bit_depth as nat),
                    nb,
                    e,
                );
                assert((k + 1) * ob == k * ob + ob) by (nonlinear_arith);
            }
            modified_audio.append(&mut bytes);
            index = index + cur_bytes;
            proof {
                lemma_rescaled_prefix_step(a, old_depth as nat, bit_depth as nat, e, k);
                k = k + 1;
            }
        }
        proof {
            lemma_fundamental_div_mod_converse_div(n as int, ob as int, k as int, n - index);
            lemma_rescaled_prefix_len(a, old_depth as nat, bit_depth as nat, e, k);
        }
        let depth: u16 = (new_bytes * 8) as u16;
        self.audio_data = modified_audio;
        self.bit_depth = depth;
        self.block_align = self.channel_no * (depth / 8);
        self.byte_rate = self.sample_rate * (self.block_align as u32);
        self.data_size = self.audio_data.len() as u32;
        self.chunk_size = self.data_size + 36;
        Ok(())
    }
}

/// A two-byte field holds a value below 2^16.
proof fn lemma_two_byte_field(b: Seq<u8>, offset: int, little: bool)
    requires
        0 <= offset,
        offset + 2 <= b.len(),
    ensures
        field(b, offset, 2, little) < 0x1_0000,
{
    let s = b.subrange(offset, offset + 2);
    if little {
        lemma_le_value_bound(s);
    } else {
        lemma_le_value_bound(crate::codec::reversed(s));
    }
    reveal_with_fuel(crate::codec::byte_pow, 3);
}

} // verus!
