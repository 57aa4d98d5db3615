//! Re-scaling one sample from one bit depth to another.
use vstd::arithmetic::div_mod::lemma_mul_mod_noop_left;
use vstd::arithmetic::mul::lemma_mul_is_commutative;
use vstd::arithmetic::power::{lemma_pow_increases, pow};
use vstd::arithmetic::power2::{lemma2_to64, lemma_pow2, lemma_pow2_strictly_increases, pow2};
use vstd::bits::lemma_u32_shr_is_div;
use vstd::prelude::*;

verus! {

/// `d` rounded up to the next multiple of 8.
pub open spec fn round_up_to_byte(d: nat) -> nat {
    if d % 8 == 0 {
        d
    } else {
        (d + (8 - d % 8)) as nat
    }
}

/// Whole bytes needed to store a sample of `d` bits.
pub open spec fn bytes_per_sample(d: nat) -> nat {
    round_up_to_byte(d) / 8
}

/// A sample at `old` bits taken to `new` bits: divided by `2^(old - new)` when the
/// depth shrinks (truncating), multiplied by `2^(new - old)` when it grows.
pub open spec fn rescale(s: nat, old: nat, new: nat) -> nat {
    if old > new {
        s / pow2((old - new) as nat)
    } else {
        s * pow2((new - old) as nat)
    }
}

/// A sample at `old` bits taken to `new` bits and, where `new` is not a whole number
/// of bytes, taken on up to the next whole byte.
pub open spec fn scaled_sample(s: nat, old: nat, new: nat) -> nat {
    if new % 8 == 0 {
        rescale(s, old, new)
    } else {
        rescale(rescale(s, old, new), new, round_up_to_byte(new))
    }
}

/// A sample depth that the byte codec can carry: one to 32 bits.
pub open spec fn depth_in_range(d: nat) -> bool {
    1 <= d <= 32
}

/// A change of depth that ends in whole bytes: one side is byte-aligned, or the two are equal.
pub open spec fn depth_change_allowed(old: nat, new: nat) -> bool {
    old % 8 == 0 || new % 8 == 0 || old == new
}

/// `base` raised to `exponent`.
pub fn ipow(base: u32, exponent: u32) -> (r: u32)
    requires
        pow(base as int, exponent as nat) <= u32::MAX,
    ensures
        r == pow(base as int, exponent as nat),
{
    let mut ret: u32 = 1;
    let mut count: u32 = 0;
    proof {
        reveal(pow);
    }
    while count < exponent
        invariant
            count <= exponent,
            ret == pow(base as int, count as nat),
            pow(base as int, exponent as nat) <= u32::MAX,
        decreases exponent - count,
    {
        proof {
            reveal(pow);
            assert(pow(base as int, (count + 1) as nat) == base * pow(base as int, count as nat));
            if base > 0 {
                lemma_pow_increases(base as nat, (count + 1) as nat, exponent as nat);
            }
            lemma_mul_is_commutative(ret as int, base as int);
        }
        ret = ret * base;
        count = count + 1;
    }
    ret
}

proof fn lemma_pow2_fits(e: nat)
    requires
        e <= 31,
    ensures
        pow(2, e) == pow2(e),
        pow2(e) <= 0x8000_0000,
        pow2(e) > 0,
{
    lemma_pow2(e);
    lemma2_to64();
    if e < 31 {
        lemma_pow2_strictly_increases(e, 31);
    }
}

/// Shrinking a sample by whole bytes is a right shift by the bits dropped.
pub proof fn lemma_shrink_is_shift(s: u32, old: nat, new: nat)
    requires
        new < old <= 32,
        new >= 1,
        old % 8 == 0,
        new % 8 == 0,
    ensures
        scaled_sample(s as nat, old, new) == s >> ((old - new) as u32),
{
    let k = (old - new) as u32;
    lemma_u32_shr_is_div(s, k);
}

/// Re-scales `sample` from `old` to `new` bits; a `new` depth that is not a whole
/// number of bytes is then taken on up to the next whole byte. The result wraps at 32 bits.
pub fn scale_sample_bit_depth(sample: u32, old: u16, new: u16) -> (r: u32)
    requires
        depth_change_allowed(old as nat, new as nat),
        depth_in_range(old as nat),
        depth_in_range(new as nat),
    ensures
        r == scaled_sample(sample as nat, old as nat, new as nat) % 0x1_0000_0000,
        old > new && old % 8 == 0 && new % 8 == 0 ==> r == sample >> ((old - new) as u32),
    decreases (if new % 8 == 0 {
        0int
    } else {
        1int
    }),
{
    let wide: u64 = if old > new {
        let e: u32 = (old - new) as u32;
        proof {
            lemma_pow2_fits(e as nat);
        }
        (sample as u64) / (ipow(2, e) as u64)
    } else {
        let e: u32 = (new - old) as u32;
        proof {
            lemma_pow2_fits(e as nat);
            assert(sample * pow2(e as nat) <= 0xffff_ffff * 0x8000_0000) by (nonlinear_arith)
                requires
                    pow2(e as nat) <= 0x8000_0000,
                    sample <= 0xffff_ffff,
            ;
        }
        (sample as u64) * (ipow(2, e) as u64)
    };
    assert(wide == rescale(sample as nat, old as nat, new as nat));
    let mut ret: u32 = (wide % 0x1_0000_0000) as u32;
    if new % 8 != 0 {
        let up: u16 = new + (8 - new % 8);
        ret = scale_sample_bit_depth(ret, new, up);
        proof {
            let p = pow2((up - new) as nat);
            lemma_mul_mod_noop_left(wide as int, p as int, 0x1_0000_0000);
        }
    }
    proof {
        if old > new && old % 8 == 0 && new % 8 == 0 {
            lemma_shrink_is_shift(sample, old as nat, new as nat);
            assert(wide < 0x1_0000_0000);
        }
    }
    ret
}

} // verus!
