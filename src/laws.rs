//! Laws that relate reading, writing and re-scaling WAV files.
use crate::codec::{
    le_bytes, le_value, lemma_byte_pow_small, lemma_span_bytes_len, lemma_span_bytes_of_value,
    lemma_span_round_trip, reversed, span_bytes,
};
use crate::error::WavError;
use crate::scale::{bytes_per_sample, depth_in_range, scaled_sample};
use crate::wav::{
    field, file_bytes, header_bytes, lemma_rescaled_prefix_step, modified, parsed, rescaled_prefix,
    WavModel,
};
use vstd::arithmetic::div_mod::lemma_fundamental_div_mod;
use vstd::arithmetic::power2::lemma2_to64;
use vstd::prelude::*;

verus! {

/// `v` as read little-endian from its own big-endian bytes.
pub open spec fn byte_swapped(v: u32) -> nat {
    le_value(reversed(le_bytes(v as nat, 4)))
}

/// Reading the bytes written for a well-formed file with the minimal `fmt` subchunk
/// gives the same file back. A big-endian file whose RIFF chunk size reads the same
/// in both byte orders is left out: it reads back little-endian.
pub proof fn lemma_parse_file_bytes(m: WavModel)
    requires
        m.wf(),
        m.subchunk_size == 16,
        m.little_endian || byte_swapped(m.chunk_size) != m.chunk_size,
    ensures
        parsed(file_bytes(m)) == Ok::<WavModel, WavError>(m),
{
    let e = m.little_endian;
    let b = file_bytes(m);
    lemma_byte_pow_small();
    lemma_span_bytes_len(m.chunk_id as nat, 4, false);
    lemma_span_bytes_len(m.chunk_size as nat, 4, e);
    lemma_span_bytes_len(m.format as nat, 4, false);
    lemma_span_bytes_len(m.subchunk_id as nat, 4, false);
    lemma_span_bytes_len(m.subchunk_size as nat, 4, e);
    lemma_span_bytes_len(m.audio_format as nat, 2, e);
    lemma_span_bytes_len(m.channel_no as nat, 2, e);
    lemma_span_bytes_len(m.sample_rate as nat, 4, e);
    lemma_span_bytes_len(m.byte_rate as nat, 4, e);
    lemma_span_bytes_len(m.block_align as nat, 2, e);
    lemma_span_bytes_len(m.bit_depth as nat, 2, e);
    lemma_span_bytes_len(m.data_id as nat, 4, false);
    lemma_span_bytes_len(m.data_size as nat, 4, e);
    assert(header_bytes(m).len() == 44);
    assert(b.subrange(0, 4) =~= span_bytes(m.chunk_id as nat, 4, false));
    assert(b.subrange(4, 8) =~= span_bytes(m.chunk_size as nat, 4, e));
    assert(b.subrange(8, 12) =~= span_bytes(m.format as nat, 4, false));
    assert(b.subrange(12, 16) =~= span_bytes(m.subchunk_id as nat, 4, false));
    assert(b.subrange(16, 20) =~= span_bytes(m.subchunk_size as nat, 4, e));
    assert(b.subrange(20, 22) =~= span_bytes(m.audio_format as nat, 2, e));
    assert(b.subrange(22, 24) =~= span_bytes(m.channel_no as nat, 2, e));
    assert(b.subrange(24, 28) =~= span_bytes(m.sample_rate as nat, 4, e));
    assert(b.subrange(28, 32) =~= span_bytes(m.byte_rate as nat, 4, e));
    assert(b.subrange(32, 34) =~= span_bytes(m.block_align as nat, 2, e));
    assert(b.subrange(34, 36) =~= span_bytes(m.bit_depth as nat, 2, e));
    assert(b.subrange(36, 40) =~= span_bytes(m.data_id as nat, 4, false));
    assert(b.subrange(40, 44) =~= span_bytes(m.data_size as nat, 4, e));
    assert(b.subrange(44, b.len() as int) =~= m.audio_data);
    lemma_span_round_trip(m.chunk_id as nat, 4, false);
    lemma_span_round_trip(m.chunk_size as nat, 4, e);
    lemma_span_round_trip(m.format as nat, 4, false);
    lemma_span_round_trip(m.subchunk_id as nat, 4, false);
    lemma_span_round_trip(m.subchunk_size as nat, 4, e);
    lemma_span_round_trip(m.audio_format as nat, 2, e);
    lemma_span_round_trip(m.channel_no as nat, 2, e);
    lemma_span_round_trip(m.sample_rate as nat, 4, e);
    lemma_span_round_trip(m.byte_rate as nat, 4, e);
    lemma_span_round_trip(m.block_align as nat, 2, e);
    lemma_span_round_trip(m.bit_depth as nat, 2, e);
    lemma_span_round_trip(m.data_id as nat, 4, false);
    lemma_span_round_trip(m.data_size as nat, 4, e);
    if !e {
        assert(field(b, 4, 4, true) == byte_swapped(m.chunk_size));
    }
}

/// Where the RIFF chunk size accounts for the buffer's length in both byte orders,
/// the buffer is read little-endian.
pub proof fn lemma_both_orders_read_little_endian(b: Seq<u8>)
    requires
        b.len() >= 12,
        field(b, 4, 4, true) + 8 == b.len(),
        field(b, 4, 4, false) + 8 == b.len(),
    ensures
        match parsed(b) {
            Ok(m) => m.little_endian,
            Err(e) => !(e is AmbiguousOrCorruptHeader),
        },
{
}

proof fn lemma_same_depth_prefix(a: Seq<u8>, d: nat, little: bool, k: nat)
    requires
        depth_in_range(d),
        d % 8 == 0,
        k * bytes_per_sample(d) <= a.len(),
    ensures
        rescaled_prefix(a, d, d, little, k) == a.subrange(0, (k * bytes_per_sample(d)) as int),
    decreases k,
{
    let w = bytes_per_sample(d) as int;
    if k == 0 {
        assert(k * w == 0) by (nonlinear_arith)
            requires
                k == 0,
        ;
        assert(a.subrange(0, 0) =~= Seq::<u8>::empty());
    } else {
        let j = k - 1;
        assert(k * w == j * w + w) by (nonlinear_arith)
            requires
                k == j + 1,
        ;
        assert(0 <= j * w) by (nonlinear_arith)
            requires
                0 <= j,
                0 <= w,
        ;
        lemma_same_depth_prefix(a, d, little, j as nat);
        lemma_rescaled_prefix_step(a, d, d, little, j as nat);
        let chunk = a.subrange(j * w, j * w + w);
        lemma_span_bytes_of_value(chunk, little);
        lemma2_to64();
        assert(scaled_sample(field(a, j * w, w, little), d, d) == field(a, j * w, w, little));
        assert(a.subrange(0, k * w) =~= a.subrange(0, j * w) + chunk);
    }
}

/// Re-scaling a file to the byte-aligned depth it already has leaves its samples as
/// they are, where they fill a whole number of samples.
pub proof fn lemma_same_depth_keeps_samples(m: WavModel)
    requires
        depth_in_range(m.bit_depth as nat),
        m.bit_depth % 8 == 0,
        m.audio_data.len() % bytes_per_sample(m.bit_depth as nat) == 0,
    ensures
        modified(m, m.bit_depth) is Ok,
        modified(m, m.bit_depth)->Ok_0.audio_data == m.audio_data,
{
    let d = m.bit_depth as nat;
    let w = bytes_per_sample(d);
    let len = m.audio_data.len();
    let k = len / w;
    lemma_fundamental_div_mod(len as int, w as int);
    assert(k * w == len) by (nonlinear_arith)
        requires
            len == w * k + len % w,
            len % w == 0,
    ;
    lemma_same_depth_prefix(m.audio_data, d, m.little_endian, k);
    assert(m.audio_data.subrange(0, len as int) =~= m.audio_data);
}

} // verus!
