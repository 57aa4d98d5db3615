use wav_depth::codec::{bytes_to_uint, uint_to_bytes};
use wav_depth::error::WavError;
use wav_depth::scale::{ipow, scale_sample_bit_depth};
use wav_depth::wav::WavFile;

fn put(out: &mut Vec<u8>, v: u32, len: usize, little: bool) {
    let mut bytes = Vec::new();
    for i in 0..len {
        bytes.push((v >> (8 * i)) as u8);
    }
    if !little {
        bytes.reverse();
    }
    out.extend_from_slice(&bytes);
}

/// A canonical file: mono, 8000 Hz, at `bit_depth` bits, holding `samples`.
fn wav_bytes(bit_depth: u16, samples: &[u8], little: bool) -> Vec<u8> {
    let block_align = ((bit_depth as u32) + 7) / 8;
    let mut out = Vec::new();
    out.extend_from_slice(b"RIFF");
    put(&mut out, 36 + samples.len() as u32, 4, little);
    out.extend_from_slice(b"WAVE");
    out.extend_from_slice(b"fmt ");
    put(&mut out, 16, 4, little);
    put(&mut out, 1, 2, little);
    put(&mut out, 1, 2, little);
    put(&mut out, 8000, 4, little);
    put(&mut out, 8000 * block_align, 4, little);
    put(&mut out, block_align, 2, little);
    put(&mut out, bit_depth as u32, 2, little);
    out.extend_from_slice(b"data");
    put(&mut out, samples.len() as u32, 4, little);
    out.extend_from_slice(samples);
    out
}

fn assert_invariants(w: &WavFile) {
    assert_eq!(w.chunk_size, w.data_size + 36);
    assert_eq!(w.data_size as usize, w.audio_data.len());
    assert_eq!(w.block_align, w.channel_no * ((w.bit_depth + 7) / 8));
    assert_eq!(w.byte_rate, w.sample_rate * w.block_align as u32);
}

#[test]
fn parse_empty_little_endian_file() {
    let data = wav_bytes(16, &[], true);
    assert_eq!(data.len(), 44);
    assert_eq!(&data[4..8], &[36, 0, 0, 0]);
    let w = WavFile::parse(data).unwrap();
    assert!(w.little_endian);
    assert!(w.audio_data.is_empty());
    assert_eq!(w.data_size, 0);
    assert_eq!(w.chunk_size, 36);
    assert_eq!(w.chunk_id, 0x5249_4646);
    assert_eq!(w.format, 0x5741_5645);
    assert_eq!(w.subchunk_id, 0x666d_7420);
    assert_eq!(w.data_id, 0x6461_7461);
    assert_eq!(w.bit_depth, 16);
    assert_eq!(w.sample_rate, 8000);
}

#[test]
fn parse_rejects_size_that_fits_neither_order() {
    let mut data = vec![0u8; 100];
    data[0..4].copy_from_slice(b"RIFF");
    let r = WavFile::parse(data);
    assert_eq!(
        r,
        Err(WavError::AmbiguousOrCorruptHeader { size_le: 0, size_be: 0, buffer_len: 100 })
    );
}

#[test]
fn shrink_sixteen_bit_sample_to_eight() {
    let mut w = WavFile::parse(wav_bytes(16, &[0x34, 0x12], true)).unwrap();
    assert_eq!(w.modify_bit_depth(8), Ok(()));
    assert_eq!(w.audio_data, vec![0x12]);
    assert_eq!(w.bit_depth, 8);
    assert_eq!(w.block_align, 1);
    assert_eq!(w.byte_rate, 8000);
    assert_eq!(w.data_size, 1);
    assert_eq!(w.chunk_size, 37);
}

#[test]
fn grow_eight_bit_sample_to_sixteen() {
    let mut w = WavFile::parse(wav_bytes(8, &[200], true)).unwrap();
    assert_eq!(w.modify_bit_depth(16), Ok(()));
    assert_eq!(w.audio_data, vec![0x00, 0xC8]);
    assert_eq!(w.bit_depth, 16);
    assert_eq!(w.block_align, 2);
    assert_eq!(w.byte_rate, 16000);
    assert_eq!(w.data_size, 2);
    assert_eq!(w.chunk_size, 38);
}

#[test]
fn big_endian_file_round_trips() {
    let data = wav_bytes(16, &[1, 2, 3, 4], false);
    let w = WavFile::parse(data.clone()).unwrap();
    assert!(!w.little_endian);
    assert_eq!(w.chunk_size, 40);
    assert_eq!(w.bit_depth, 16);
    assert_eq!(w.to_bytes(), data);
    assert_eq!(WavFile::parse(w.to_bytes()).unwrap(), w);
}

#[test]
fn little_endian_file_round_trips() {
    let data = wav_bytes(8, &[9, 8, 7], true);
    let w = WavFile::parse(data.clone()).unwrap();
    assert_eq!(w.to_bytes(), data);
    assert_eq!(WavFile::parse(w.to_bytes()).unwrap(), w);
}

#[test]
fn size_read_both_ways_prefers_little_endian() {
    // 0x00010100 reads the same in both byte orders.
    let total = 0x0001_0100 + 8;
    let samples = vec![0u8; total - 44];
    let mut data = wav_bytes(8, &samples, true);
    assert_eq!(&data[4..8], &[0x00, 0x01, 0x01, 0x00]);
    data[16..20].copy_from_slice(&[16, 0, 0, 0]);
    let w = WavFile::parse(data).unwrap();
    assert!(w.little_endian);
    assert_eq!(w.chunk_size, 0x0001_0100);
}

#[test]
fn same_depth_keeps_samples() {
    let samples = [1u8, 2, 3, 4, 5, 6];
    let mut w = WavFile::parse(wav_bytes(16, &samples, true)).unwrap();
    assert_eq!(w.modify_bit_depth(16), Ok(()));
    assert_eq!(w.audio_data, samples.to_vec());
    let mut b = WavFile::parse(wav_bytes(24, &samples, false)).unwrap();
    assert_eq!(b.modify_bit_depth(24), Ok(()));
    assert_eq!(b.audio_data, samples.to_vec());
}

#[test]
fn shrinking_by_whole_bytes_is_a_shift() {
    for s in [0u32, 1, 255, 256, 0x1234, 0xdead_beef, u32::MAX] {
        assert_eq!(scale_sample_bit_depth(s, 16, 8), s >> 8);
        assert_eq!(scale_sample_bit_depth(s, 32, 8), s >> 24);
        assert_eq!(scale_sample_bit_depth(s, 32, 16), s >> 16);
        assert_eq!(scale_sample_bit_depth(s, 24, 16), s >> 8);
    }
}

#[test]
fn rescaled_file_keeps_its_invariants() {
    let samples = [0x10u8, 0x20, 0x30, 0x40, 0x50, 0x60, 0x70];
    for depth in [4u16, 8, 12, 16, 20, 24, 32] {
        let mut w = WavFile::parse(wav_bytes(16, &samples, true)).unwrap();
        w.channel_no = 2;
        w.block_align = 4;
        w.byte_rate = 32000;
        assert_eq!(w.modify_bit_depth(depth), Ok(()));
        assert_invariants(&w);
        assert!(w.little_endian);
        assert_eq!(w.bit_depth % 8, 0);
    }
}

#[test]
fn partial_byte_depth_is_stored_at_next_byte() {
    // 0x1234 at 16 bits -> 0x123 at 12 bits -> 0x1230 at 16 bits.
    let mut w = WavFile::parse(wav_bytes(16, &[0x34, 0x12], true)).unwrap();
    assert_eq!(w.modify_bit_depth(12), Ok(()));
    assert_eq!(w.bit_depth, 16);
    assert_eq!(w.audio_data, vec![0x30, 0x12]);
    assert_eq!(scale_sample_bit_depth(0x1234, 16, 12), 0x1230);
    assert_eq!(scale_sample_bit_depth(200, 8, 5), 200 / 8 * 8);
}

#[test]
fn trailing_partial_sample_is_dropped() {
    let mut w = WavFile::parse(wav_bytes(16, &[1, 2, 3], true)).unwrap();
    assert_eq!(w.modify_bit_depth(16), Ok(()));
    assert_eq!(w.audio_data, vec![1, 2]);
    assert_eq!(w.data_size, 2);
    assert_eq!(w.chunk_size, 38);
}

#[test]
fn big_endian_samples_stay_big_endian() {
    let mut w = WavFile::parse(wav_bytes(8, &[200], false)).unwrap();
    assert_eq!(w.modify_bit_depth(16), Ok(()));
    assert_eq!(w.audio_data, vec![0xC8, 0x00]);
    let out = w.to_bytes();
    assert_eq!(&out[34..36], &[0, 16]);
    assert_eq!(&out[4..8], &[0, 0, 0, 38]);
}

#[test]
fn unsupported_bit_depth_leaves_file_alone() {
    let mut w = WavFile::parse(wav_bytes(16, &[1, 2], true)).unwrap();
    w.bit_depth = 12;
    let before = w.clone();
    assert_eq!(
        w.modify_bit_depth(20),
        Err(WavError::UnsupportedBitDepth { current: 12, requested: 20 })
    );
    assert_eq!(w, before);
    assert_eq!(w.modify_bit_depth(12), Ok(()));
    assert_eq!(w.bit_depth, 16);
}

#[test]
fn parse_rejects_short_buffers() {
    assert_eq!(
        WavFile::parse(vec![0u8; 8]),
        Err(WavError::OutOfBounds { offset: 0, len: 12, available: 8 })
    );
    let mut data = vec![0u8; 20];
    data[4] = 12;
    assert_eq!(
        WavFile::parse(data),
        Err(WavError::OutOfBounds { offset: 12, len: 32, available: 20 })
    );
}

#[test]
fn parse_rejects_extended_fmt_chunk() {
    let mut data = wav_bytes(16, &[0, 0], true);
    data[16] = 18;
    assert_eq!(
        WavFile::parse(data),
        Err(WavError::UnsupportedChunkLayout { subchunk_size: 18 })
    );
}

#[test]
fn bytes_to_uint_reads_both_orders() {
    let v = vec![0x12u8, 0x34, 0x56, 0x78, 0x9a];
    assert_eq!(bytes_to_uint(&v, 0, 4, true), Ok(0x7856_3412));
    assert_eq!(bytes_to_uint(&v, 0, 4, false), Ok(0x1234_5678));
    assert_eq!(bytes_to_uint(&v, 1, 2, true), Ok(0x5634));
    assert_eq!(bytes_to_uint(&v, 1, 2, false), Ok(0x3456));
    assert_eq!(bytes_to_uint(&v, 4, 1, false), Ok(0x9a));
    assert_eq!(bytes_to_uint(&v, 2, 3, false), Ok(0x56789a));
    assert_eq!(
        bytes_to_uint(&v, 3, 4, true),
        Err(WavError::OutOfBounds { offset: 3, len: 4, available: 5 })
    );
    assert_eq!(
        bytes_to_uint(&v, usize::MAX, 2, true),
        Err(WavError::OutOfBounds { offset: usize::MAX, len: 2, available: 5 })
    );
}

#[test]
fn uint_to_bytes_writes_both_orders() {
    assert_eq!(uint_to_bytes(0x1234_5678, 4, true), vec![0x78, 0x56, 0x34, 0x12]);
    assert_eq!(uint_to_bytes(0x1234_5678, 4, false), vec![0x12, 0x34, 0x56, 0x78]);
    assert_eq!(uint_to_bytes(0x1234_5678, 2, true), vec![0x78, 0x56]);
    assert_eq!(uint_to_bytes(0x1234_5678, 2, false), vec![0x56, 0x78]);
    assert_eq!(uint_to_bytes(7, 0, true), Vec::<u8>::new());
}

#[test]
fn codec_round_trip() {
    for (v, n) in [(0u32, 1usize), (255, 1), (0xbeef, 2), (0x00ab_cdef, 3), (u32::MAX, 4)] {
        for little in [true, false] {
            let bytes = uint_to_bytes(v, n, little);
            assert_eq!(bytes.len(), n);
            assert_eq!(bytes_to_uint(&bytes, 0, n, little), Ok(v));
        }
    }
}

#[test]
fn ipow_values() {
    assert_eq!(ipow(2, 0), 1);
    assert_eq!(ipow(2, 10), 1024);
    assert_eq!(ipow(2, 31), 0x8000_0000);
    assert_eq!(ipow(3, 4), 81);
    assert_eq!(ipow(0, 0), 1);
    assert_eq!(ipow(0, 5), 0);
}

#[test]
fn growing_scales_by_power_of_two() {
    assert_eq!(scale_sample_bit_depth(200, 8, 16), 51200);
    assert_eq!(scale_sample_bit_depth(1, 8, 32), 1 << 24);
    assert_eq!(scale_sample_bit_depth(0xff, 8, 24), 0xff_0000);
    assert_eq!(scale_sample_bit_depth(5, 16, 16), 5);
}

#[test]
fn can_modify_bit_depth_checks_limits() {
    let w = WavFile::parse(wav_bytes(16, &[1, 2], true)).unwrap();
    assert!(w.can_modify_bit_depth(8));
    assert!(w.can_modify_bit_depth(32));
    assert!(!w.can_modify_bit_depth(0));
    assert!(!w.can_modify_bit_depth(33));
    let mut many = w.clone();
    many.channel_no = 0x8000;
    assert!(!many.can_modify_bit_depth(16));
    assert!(many.can_modify_bit_depth(8));
    let mut fast = w.clone();
    fast.sample_rate = 0x8000_0000;
    assert!(!fast.can_modify_bit_depth(16));
}
