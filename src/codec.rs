//! Unsigned integers stored in byte spans of one to four bytes, in either byte order.
use crate::error::WavError;
use vstd::arithmetic::div_mod::{lemma_breakdown, lemma_mod_mod};
use vstd::prelude::*;

verus! {

/// Value of a byte sequence whose first byte is the least significant.
pub open spec fn le_value(s: Seq<u8>) -> nat
    decreases s.len(),
{
    if s.len() == 0 {
        0
    } else {
        s[0] as nat + 256 * le_value(s.drop_first())
    }
}

/// The sequence `s` back to front.
pub open spec fn reversed(s: Seq<u8>) -> Seq<u8> {
    Seq::new(s.len(), |i: int| s[s.len() - 1 - i])
}

/// Value of a byte span: its first byte is least significant when `little`,
/// most significant otherwise.
pub open spec fn span_value(s: Seq<u8>, little: bool) -> nat {
    if little {
        le_value(s)
    } else {
        le_value(reversed(s))
    }
}

/// Number of distinct values that `n` bytes hold.
pub open spec fn byte_pow(n: nat) -> nat
    decreases n,
{
    if n == 0 {
        1
    } else {
        256 * byte_pow((n - 1) as nat)
    }
}

/// The `n` low-order bytes of `v`, least significant first; higher bytes are dropped.
pub open spec fn le_bytes(v: nat, n: nat) -> Seq<u8>
    decreases n,
{
    if n == 0 {
        Seq::empty()
    } else {
        seq![(v % 256) as u8] + le_bytes(v / 256, (n - 1) as nat)
    }
}

/// The `n` low-order bytes of `v`, least significant first when `little`,
/// most significant first otherwise.
pub open spec fn span_bytes(v: nat, n: nat, little: bool) -> Seq<u8> {
    if little {
        le_bytes(v, n)
    } else {
        reversed(le_bytes(v, n))
    }
}

/// Whether `len` bytes from `index` on lie inside `buf`.
pub open spec fn span_fits(buf: Seq<u8>, index: int, len: int) -> bool {
    0 <= index && 0 <= len && index + len <= buf.len()
}

pub proof fn lemma_byte_pow_small()
    ensures
        byte_pow(0) == 1,
        byte_pow(1) == 0x100,
        byte_pow(2) == 0x1_0000,
        byte_pow(3) == 0x100_0000,
        byte_pow(4) == 0x1_0000_0000,
{
    reveal_with_fuel(byte_pow, 5);
}

/// A span of `n` bytes holds a value below `byte_pow(n)`.
pub proof fn lemma_le_value_bound(s: Seq<u8>)
    ensures
        le_value(s) < byte_pow(s.len()),
    decreases s.len(),
{
    if s.len() > 0 {
        lemma_le_value_bound(s.drop_first());
    }
}

pub proof fn lemma_byte_pow_positive(n: nat)
    ensures
        byte_pow(n) > 0,
    decreases n,
{
    if n > 0 {
        lemma_byte_pow_positive((n - 1) as nat);
    }
}

/// Decoding the low `n` bytes of `v` gives `v` reduced modulo `byte_pow(n)`.
pub proof fn lemma_le_value_of_bytes(v: nat, n: nat)
    ensures
        le_value(le_bytes(v, n)) == v % byte_pow(n),
    decreases n,
{
    if n > 0 {
        let m = (n - 1) as nat;
        lemma_le_value_of_bytes(v / 256, m);
        assert(le_bytes(v, n).drop_first() =~= le_bytes(v / 256, m));
        lemma_byte_pow_positive(m);
        lemma_breakdown(v as int, 256, byte_pow(m) as int);
    }
}

/// Encoding the value of a byte sequence in as many bytes gives the sequence back.
pub proof fn lemma_le_bytes_of_value(s: Seq<u8>)
    ensures
        le_bytes(le_value(s), s.len()) == s,
    decreases s.len(),
{
    if s.len() > 0 {
        let rest = le_value(s.drop_first());
        lemma_le_bytes_of_value(s.drop_first());
        assert((s[0] as nat + 256 * rest) % 256 == s[0] as nat);
        assert((s[0] as nat + 256 * rest) / 256 == rest);
        assert(le_bytes(le_value(s), s.len()) =~= s);
    }
}

/// Reading back what was written, in the same byte order, gives the value modulo
/// `byte_pow(n)`: the value itself wherever it fits in `n` bytes.
pub proof fn lemma_span_value_of_bytes(v: nat, n: nat, little: bool)
    ensures
        span_value(span_bytes(v, n, little), little) == v % byte_pow(n),
{
    lemma_le_value_of_bytes(v, n);
    assert(reversed(reversed(le_bytes(v, n))) =~= le_bytes(v, n));
}

/// Writing back what was read, in the same byte order and length, gives the bytes back.
pub proof fn lemma_span_bytes_of_value(s: Seq<u8>, little: bool)
    ensures
        span_bytes(span_value(s, little), s.len(), little) == s,
{
    if little {
        lemma_le_bytes_of_value(s);
    } else {
        lemma_le_bytes_of_value(reversed(s));
        assert(reversed(reversed(s)) =~= s);
    }
}

/// `n` bytes are written for any value.
pub proof fn lemma_span_bytes_len(v: nat, n: nat, little: bool)
    ensures
        span_bytes(v, n, little).len() == n,
    decreases n,
{
    if n > 0 {
        lemma_span_bytes_len(v / 256, (n - 1) as nat, true);
    }
}

/// A value that fits in `n` bytes reads back unchanged after being written in `n` bytes.
pub proof fn lemma_span_round_trip(v: nat, n: nat, little: bool)
    requires
        v < byte_pow(n),
    ensures
        span_value(span_bytes(v, n, little), little) == v,
{
    lemma_span_value_of_bytes(v, n, little);
    vstd::arithmetic::div_mod::lemma_small_mod(v, byte_pow(n));
}

/// Writing `v` in `n` bytes depends only on `v` modulo `byte_pow(n)`.
proof fn lemma_le_bytes_mod(v: nat, n: nat)
    ensures
        le_bytes(v % byte_pow(n), n) == le_bytes(v, n),
{
    lemma_span_bytes_len(v, n, true);
    lemma_le_bytes_of_value(le_bytes(v, n));
    lemma_le_value_of_bytes(v, n);
}

/// Writing at most four bytes of `v` is the same as writing those of `v` wrapped to 32 bits.
pub proof fn lemma_span_bytes_wrap(v: nat, n: nat, little: bool)
    requires
        n <= 4,
    ensures
        span_bytes(v % 0x1_0000_0000, n, little) == span_bytes(v, n, little),
{
    lemma_byte_pow_small();
    let w = v % 0x1_0000_0000;
    if n == 0 {
        lemma_mod_mod(v as int, 1, 0x1_0000_0000);
    } else if n == 1 {
        lemma_mod_mod(v as int, 0x100, 0x100_0000);
    } else if n == 2 {
        lemma_mod_mod(v as int, 0x1_0000, 0x1_0000);
    } else if n == 3 {
        lemma_mod_mod(v as int, 0x100_0000, 0x100);
    } else {
        lemma_mod_mod(v as int, 0x1_0000_0000, 1);
    }
    assert(w % byte_pow(n) == v % byte_pow(n));
    lemma_le_bytes_mod(v, n);
    lemma_le_bytes_mod(w, n);
}

/// Reads `len` bytes of `buf` from `index` on; the caller has checked that they are there.
pub(crate) fn read_span(buf: &Vec<u8>, index: usize, len: usize, lil_end: bool) -> (r: u32)
    requires
        len <= 4,
        span_fits(buf@, index as int, len as int),
    ensures
        r == span_value(buf@.subrange(index as int, index + len), lil_end),
{
    let ghost span = buf@.subrange(index as int, index + len);
    let ghost t = if lil_end { span } else { reversed(span) };
    let n: usize = buf.len();
    let mut ret: u32 = 0;
    let mut j: usize = len;
    proof {
        lemma_byte_pow_small();
    }
    while j > 0
        invariant
            len <= 4,
            span_fits(buf@, index as int, len as int),
            span == buf@.subrange(index as int, index + len),
            t == (if lil_end { span } else { reversed(span) }),
            n == buf@.len(),
            j <= len,
            ret == le_value(t.subrange(j as int, len as int)),
            byte_pow(0) == 1,
            byte_pow(1) == 0x100,
            byte_pow(2) == 0x1_0000,
            byte_pow(3) == 0x100_0000,
            byte_pow(4) == 0x1_0000_0000,
        decreases j,
    {
        let byte = if lil_end {
            buf[index + j - 1]
        } else {
            buf[index + len - j]
        };
        proof {
            let tail = t.subrange(j as int, len as int);
            let next = t.subrange(j - 1, len as int);
            assert(next.drop_first() =~= tail);
            assert(byte == next[0]);
            lemma_le_value_bound(tail);
            assert(len - j <= 3);
        }
        ret = byte as u32 + 256 * ret;
        j = j - 1;
    }
    assert(t.subrange(0, len as int) =~= t);
    ret
}

/// Reads the `len` bytes of `vec` that start at `index` as an unsigned integer, the
/// first byte least significant when `lil_end`, most significant otherwise.
pub fn bytes_to_uint(vec: &Vec<u8>, index: usize, len: usize, lil_end: bool) -> (r: Result<
    u32,
    WavError,
>)
    requires
        len <= 4,
    ensures
        match r {
            Ok(v) => span_fits(vec@, index as int, len as int) && v == span_value(
                vec@.subrange(index as int, index + len),
                lil_end,
            ),
            Err(e) => !span_fits(vec@, index as int, len as int) && e == (WavError::OutOfBounds {
                offset: index,
                len,
                available: vec@.len() as usize,
            }),
        },
{
    if index > vec.len() || len > vec.len() - index {
        return Err(WavError::OutOfBounds { offset: index, len, available: vec.len() });
    }
    Ok(read_span(vec, index, len, lil_end))
}

/// Writes the `len` low-order bytes of `val`, least significant first when `lil_end`,
/// most significant first otherwise. Higher bytes of `val` are dropped.
pub fn uint_to_bytes(val: u32, len: usize, lil_end: bool) -> (r: Vec<u8>)
    ensures
        r@ == span_bytes(val as nat, len as nat, lil_end),
        r@.len() == len,
{
    let mut low_first: Vec<u8> = Vec::new();
    let mut cur: u32 = val;
    let mut count: usize = 0;
    while count < len
        invariant
            count <= len,
            low_first@ + le_bytes(cur as nat, (len - count) as nat) == le_bytes(
                val as nat,
                len as nat,
            ),
            low_first@.len() == count,
        decreases len - count,
    {
        let ghost prev = low_first@;
        let ghost tail = le_bytes((cur / 256) as nat, (len - count - 1) as nat);
        assert(le_bytes(cur as nat, (len - count) as nat) == seq![(cur % 256) as u8] + tail);
        low_first.push((cur % 256) as u8);
        cur = cur / 256;
        count = count + 1;
        assert(low_first@ + tail =~= prev + (seq![low_first@[prev.len() as int]] + tail));
    }
    assert(le_bytes(cur as nat, 0) =~= Seq::<u8>::empty());
    assert(low_first@ =~= le_bytes(val as nat, len as nat));
    if lil_end {
        return low_first;
    }
    let mut out: Vec<u8> = Vec::new();
    let mut i: usize = low_first.len();
    while i > 0
        invariant
            i <= low_first@.len(),
            low_first@ == le_bytes(val as nat, len as nat),
            out@ =~= reversed(low_first@).subrange(0, low_first@.len() - i),
        decreases i,
    {
        i = i - 1;
        out.push(low_first[i]);
    }
    assert(out@ =~= reversed(low_first@));
    out
}

} // verus!
