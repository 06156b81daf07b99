//! Single- to half-precision conversion of IEEE 754 bit patterns, as used
//! to upload 3D LUTs into `RGBA16F` textures.
//!
//! The conversion works on the raw bits of an `f32` (its sign, 8-bit
//! exponent and 23-bit mantissa fields) and yields the raw bits of an
//! `f16`, rounding to nearest with ties to even. Half exponents of 31 and
//! above (infinities, NaN and finite values beyond the half range) become
//! infinity; a normal value whose rounding carries out of exponent 30 does
//! too. Exponents below -10 flush to a signed zero.

use vstd::prelude::*;
use vstd::arithmetic::power2::{pow2, lemma2_to64, lemma_pow2_unfold};
use vstd::bits::lemma_u32_shl_is_mul;

verus! {

/// The half-precision sign bit for single-precision `bits`.
pub open spec fn half_sign(bits: u32) -> nat {
    if bits >= 0x8000_0000 { 0x8000 } else { 0 }
}

/// The single-precision exponent field rebased to the half bias
/// (`e - 127 + 15`).
pub open spec fn rebased_exponent(bits: u32) -> int {
    (bits / 0x80_0000) % 256 - 112
}

/// The 23-bit single-precision mantissa field.
pub open spec fn single_mantissa(bits: u32) -> nat {
    (bits % 0x80_0000) as nat
}

/// Whether `value / 2^shift`, truncated, rounds up to nearest even: the
/// first dropped bit is set and either a later dropped bit is set or the
/// kept quotient is odd.
pub open spec fn subnormal_rounds_up(value: nat, shift: nat) -> bool {
    &&& (value / pow2((shift - 1) as nat)) % 2 == 1
    &&& (value % pow2((shift - 1) as nat) != 0 || (value / pow2(shift)) % 2 == 1)
}

/// Whether a normal mantissa rounds up to nearest even when its low 13
/// bits are dropped.
pub open spec fn normal_rounds_up(m: nat) -> bool {
    &&& (m / 0x1000) % 2 == 1
    &&& (m % 0x1000 != 0 || (m / 0x2000) % 2 == 1)
}

/// The half-precision bits for single-precision `bits`.
pub open spec fn half_from_single_bits(bits: u32) -> u16 {
    let sign = half_sign(bits);
    let e = rebased_exponent(bits);
    let m = single_mantissa(bits);
    if e >= 31 {
        (sign + 0x7c00) as u16
    } else if e < -10 {
        sign as u16
    } else if e <= 0 {
        let full = m + 0x80_0000;
        let shift = (14 - e) as nat;
        let q = full / pow2(shift);
        if subnormal_rounds_up(full, shift) { (sign + q + 1) as u16 } else { (sign + q) as u16 }
    } else {
        let q = m / 0x2000;
        if normal_rounds_up(m) {
            (sign + e * 0x400 + q + 1) as u16
        } else {
            (sign + e * 0x400 + q) as u16
        }
    }
}

/// The position of the highest set bit of `m` (0 for `m <= 1`).
pub open spec fn top_bit(m: nat) -> nat
    decreases m,
{
    if m <= 1 { 0 } else { 1 + top_bit(m / 2) }
}

/// The single-precision bits of a finite half-precision value (exponent
/// field below 31): zeros, subnormals (normalized to a single-precision
/// exponent) and normals.
pub open spec fn single_from_half_bits(h: u16) -> u32 {
    let sign: nat = if h >= 0x8000 { 0x8000_0000 } else { 0 };
    let e = (h / 0x400) % 32;
    let m = h % 0x400;
    if e == 0 && m == 0 {
        sign as u32
    } else if e == 0 {
        let k = top_bit(m as nat);
        (sign + (103 + k) * 0x80_0000 + (m - pow2(k)) * pow2((23 - k) as nat)) as u32
    } else {
        (sign + (e + 112) * 0x80_0000 + m * 0x2000) as u32
    }
}

proof fn lemma_top_bit_bounds(m: nat)
    requires
        1 <= m < 0x400,
    ensures
        top_bit(m) <= 9,
        pow2(top_bit(m)) <= m < 2 * pow2(top_bit(m)),
    decreases m,
{
    lemma2_to64();
    if m > 1 {
        lemma_top_bit_bounds(m / 2);
        lemma_pow2_unfold(top_bit(m));
    }
}

proof fn lemma_subnormal_round_trip(h: u16)
    requires
        (h / 0x400) % 32 == 0,
        h % 0x400 != 0,
    ensures
        half_from_single_bits(single_from_half_bits(h)) == h,
{
    let m = (h % 0x400) as nat;
    let sign: nat = if h >= 0x8000 { 0x8000 } else { 0 };
    let s32: nat = if h >= 0x8000 { 0x8000_0000 } else { 0 };
    assert(h == sign + m);
    lemma_top_bit_bounds(m);
    lemma2_to64();
    let k = top_bit(m);
    let p = pow2(k);
    let q = pow2((23 - k) as nat);
    let bits = single_from_half_bits(h);
    assert(p * q == 0x80_0000 && q >= 0x4000 && q / 2 == pow2((22 - k) as nat)) by {
        if k == 0 {
            assert(pow2(0) == 1 && pow2(23) == 8388608 && pow2(22) == 4194304);
            assert(p == 1 && q == 8388608);
            assert(p * q == 1 * 8388608);
            assert(pow2((22 - k) as nat) == 4194304);
            assert(q / 2 == 4194304);
        } else if k == 1 {
            assert(pow2(1) == 2 && pow2(22) == 4194304 && pow2(21) == 2097152);
            assert(p == 2 && q == 4194304);
            assert(p * q == 2 * 4194304);
            assert(pow2((22 - k) as nat) == 2097152);
            assert(q / 2 == 2097152);
        } else if k == 2 {
            assert(pow2(2) == 4 && pow2(21) == 2097152 && pow2(20) == 1048576);
            assert(p == 4 && q == 2097152);
            assert(p * q == 4 * 2097152);
            assert(pow2((22 - k) as nat) == 1048576);
            assert(q / 2 == 1048576);
        } else if k == 3 {
            assert(pow2(3) == 8 && pow2(20) == 1048576 && pow2(19) == 524288);
            assert(p == 8 && q == 1048576);
            assert(p * q == 8 * 1048576);
            assert(pow2((22 - k) as nat) == 524288);
            assert(q / 2 == 524288);
        } else if k == 4 {
            assert(pow2(4) == 16 && pow2(19) == 524288 && pow2(18) == 262144);
            assert(p == 16 && q == 524288);
            assert(p * q == 16 * 524288);
            assert(pow2((22 - k) as nat) == 262144);
            assert(q / 2 == 262144);
        } else if k == 5 {
            assert(pow2(5) == 32 && pow2(18) == 262144 && pow2(17) == 131072);
            assert(p == 32 && q == 262144);
            assert(p * q == 32 * 262144);
            assert(pow2((22 - k) as nat) == 131072);
            assert(q / 2 == 131072);
        } else if k == 6 {
            assert(pow2(6) == 64 && pow2(17) == 131072 && pow2(16) == 65536);
            assert(p == 64 && q == 131072);
            assert(p * q == 64 * 131072);
            assert(pow2((22 - k) as nat) == 65536);
            assert(q / 2 == 65536);
        } else if k == 7 {
            assert(pow2(7) == 128 && pow2(16) == 65536 && pow2(15) == 32768);
            assert(p == 128 && q == 65536);
            assert(p * q == 128 * 65536);
            assert(pow2((22 - k) as nat) == 32768);
            assert(q / 2 == 32768);
        } else if k == 8 {
            assert(pow2(8) == 256 && pow2(15) == 32768 && pow2(14) == 16384);
            assert(p == 256 && q == 32768);
            assert(p * q == 256 * 32768);
            assert(pow2((22 - k) as nat) == 16384);
            assert(q / 2 == 16384);
        } else {
            assert(pow2(9) == 512 && pow2(14) == 16384 && pow2(13) == 8192);
            assert(p == 512 && q == 16384);
            assert(p * q == 512 * 16384);
            assert(pow2((22 - k) as nat) == 8192);
            assert(q / 2 == 8192);
        }
    }
    let r = (m - p) * q;
    assert(r + p * q == m * q) by (nonlinear_arith)
        requires
            r == (m - p) * q,
            p <= m,
    ;
    assert(r < 0x80_0000) by (nonlinear_arith)
        requires
            r == (m - p) * q,
            m < 2 * p,
            p <= m,
            p * q == 0x80_0000,
    ;
    assert(bits == s32 + (103 + k) * 0x80_0000 + r);
    assert(bits / 0x80_0000 == s32 / 0x80_0000 + 103 + k);
    assert(rebased_exponent(bits) == k - 9);
    assert(single_mantissa(bits) == r);
    assert(half_sign(bits) == sign);
    let full: nat = (r + 0x80_0000) as nat;
    assert(full == m * q);
    let shift = (14 - (k - 9)) as nat;
    assert(shift == 23 - k);
    assert(full / pow2(shift) == m) by (nonlinear_arith)
        requires
            full == m * q,
            q == pow2(shift),
            q > 0,
    ;
    let half_q = pow2((shift - 1) as nat);
    assert(q == 2 * half_q);
    assert(full / half_q == 2 * m && full % half_q == 0) by (nonlinear_arith)
        requires
            full == m * q,
            q == 2 * half_q,
            half_q > 0,
    ;
    assert(!subnormal_rounds_up(full, shift));
}

/// Converts the bits of an `f32` to the bits of the nearest `f16` (see the
/// module notes for the saturating and flushing cases).
pub fn f32_bits_to_f16(bits: u32) -> (h: u16)
    ensures
        h == half_from_single_bits(bits),
{
    let sign: u16 = if bits >= 0x8000_0000 { 0x8000 } else { 0 };
    let exp: i32 = ((bits / 0x80_0000) % 256) as i32 - 112;
    let mantissa: u32 = bits % 0x80_0000;

    if exp >= 0x1f {
        // Exponent overflow, Inf and NaN all saturate to infinity.
        return sign + 0x7c00;
    }
    if exp <= 0 {
        if exp < -10 {
            // Underflow to a signed zero.
            return sign;
        }
        // Subnormal half.
        let full: u32 = mantissa + 0x80_0000;
        let shift: u32 = (14 - exp) as u32;
        proof {
            lemma2_to64();
            lemma_u32_shl_is_mul(1, shift);
            lemma_pow2_unfold(shift as nat);
        }
        let divisor: u32 = 1u32 << shift;
        let half_m: u32 = full / divisor;
        let round_bit: u32 = divisor / 2;
        assert(half_m < 0x400) by (nonlinear_arith)
            requires
                full < 0x100_0000,
                divisor >= 0x4000,
                half_m == full / divisor,
        ;
        if (full / round_bit) % 2 == 1 && (full % round_bit != 0 || half_m % 2 == 1) {
            return sign + (half_m + 1) as u16;
        }
        return sign + half_m as u16;
    }
    let mut half_exp: u32 = (exp as u32) * 0x400;
    let mut half_m: u32 = mantissa / 0x2000;
    // Round to nearest even.
    if (mantissa / 0x1000) % 2 == 1 && (mantissa % 0x1000 != 0 || half_m % 2 == 1) {
        half_m = half_m + 1;
        if half_m == 0x400 {
            half_m = 0;
            half_exp = half_exp + 0x400;
        }
    }
    sign + half_exp as u16 + half_m as u16
}

/// Law: converting a half-precision value to single precision and back
/// gives the same bits, for every finite half (exponent field below 31):
/// zeros, subnormals and normals.
pub proof fn lemma_half_round_trip(h: u16)
    requires
        (h / 0x400) % 32 < 31,
    ensures
        half_from_single_bits(single_from_half_bits(h)) == h,
{
    let e = (h / 0x400) % 32;
    let m = h % 0x400;
    let sign: nat = if h >= 0x8000 { 0x8000 } else { 0 };
    assert(h == sign + e * 0x400 + m);
    let bits = single_from_half_bits(h);
    if e == 0 && m == 0 {
        assert(rebased_exponent(bits) == -112);
    } else if e == 0 {
        lemma_subnormal_round_trip(h);
    } else {
        let s32: nat = if h >= 0x8000 { 0x8000_0000 } else { 0 };
        assert(bits == s32 + (e + 112) * 0x80_0000 + m * 0x2000);
        assert(bits / 0x80_0000 == s32 / 0x80_0000 + e + 112);
        assert(rebased_exponent(bits) == e);
        assert(single_mantissa(bits) == m * 0x2000);
        assert(half_sign(bits) == sign);
        assert((m * 0x2000) / 0x1000 == m * 2);
        assert(!normal_rounds_up(single_mantissa(bits)));
    }
}

/// Interleaves LUT entries (single-precision bits per channel) into
/// `RGBA16F` texels with an opaque alpha of 1.0.
pub fn pack_lut_rgba16f(entries: &Vec<[u32; 3]>) -> (texels: Vec<u16>)
    requires
        entries.len() * 4 <= usize::MAX,
    ensures
        texels.len() == entries.len() * 4,
        forall|i: int, c: int|
            0 <= i < entries.len() && 0 <= c < 3 ==> #[trigger] texels@[i * 4 + c] == half_from_single_bits(
                entries@[i][c],
            ),
        forall|i: int| 0 <= i < entries.len() ==> #[trigger] texels@[i * 4 + 3] == half_from_single_bits(0x3f80_0000),
{
    let one: u16 = f32_bits_to_f16(0x3f80_0000);
    let mut texels: Vec<u16> = Vec::new();
    let mut i: usize = 0;
    while i < entries.len()
        invariant
            i <= entries.len(),
            entries.len() * 4 <= usize::MAX,
            one == half_from_single_bits(0x3f80_0000),
            texels.len() == i * 4,
            forall|k: int, c: int|
                0 <= k < i && 0 <= c < 3 ==> #[trigger] texels@[k * 4 + c] == half_from_single_bits(entries@[k][c]),
            forall|k: int| 0 <= k < i ==> #[trigger] texels@[k * 4 + 3] == half_from_single_bits(0x3f80_0000),
        decreases entries.len() - i,
    {
        let entry = entries[i];
        let ghost before = texels@;
        texels.push(f32_bits_to_f16(entry[0]));
        texels.push(f32_bits_to_f16(entry[1]));
        texels.push(f32_bits_to_f16(entry[2]));
        texels.push(one);
        assert forall|k: int, c: int| 0 <= k < i + 1 && 0 <= c < 3 implies #[trigger] texels@[k * 4 + c]
            == half_from_single_bits(entries@[k][c]) by {
            if k < i {
                assert(texels@[k * 4 + c] == before[k * 4 + c]);
            }
        }
        assert forall|k: int| 0 <= k < i + 1 implies #[trigger] texels@[k * 4 + 3] == half_from_single_bits(
            0x3f80_0000,
        ) by {
            if k < i {
                assert(texels@[k * 4 + 3] == before[k * 4 + 3]);
            }
        }
        i += 1;
    }
    texels
}

} // verus!
