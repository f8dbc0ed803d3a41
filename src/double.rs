//! Rendering of IEEE-754 doubles from their bit pattern, in base-2 scientific
//! form `[-]d.dddddd*2^[-]E`, with integer arithmetic only.
use vstd::prelude::*;
use vstd::arithmetic::{div_mod, power, power2};
use vstd::bits;
use crate::digits;
use crate::scratch::{i64_buf, put, u64_buf, SCRATCH_LEN};

verus! {

/// Number of binary digits of `n`: the 1-based index of its highest set bit, 0 for 0.
pub open spec fn bit_length(n: nat) -> nat
    decreases n,
{
    if n == 0 {
        0
    } else {
        1 + bit_length(n / 2)
    }
}

proof fn lemma_bit_length_of_quotient(x: nat, k: nat)
    requires
        x / power2::pow2(k) == 1,
    ensures
        bit_length(x) == k + 1,
    decreases k,
{
    if k == 0 {
        reveal(power::pow);
        assert(power2::pow2(0) == 1);
        assert(x / power2::pow2(k) == x / 1);
        assert(x == 1);
        assert(bit_length(0) == 0);
        assert(bit_length(1) == 1 + bit_length(0));
    } else {
        power2::lemma_pow2_unfold(k);
        let p = power2::pow2((k - 1) as nat);
        assert(p > 0) by {
            power2::lemma_pow2_pos((k - 1) as nat);
        }
        div_mod::lemma_div_denominator(x as int, 2, p as int);
        assert(power2::pow2(k) == 2 * p);
        assert((x / 2) / p == 1);
        lemma_bit_length_of_quotient(x / 2, (k - 1) as nat);
        assert(x != 0) by {
            if x == 0 {
                assert(0nat / power2::pow2(k) == 0);
            }
        }
    }
}

/// The 1-based index of the highest set bit of `n`, found by halving the
/// search range; 0 when no bit is set.
pub fn hi_bit_1(n: u64) -> (r: u64)
    ensures
        r == bit_length(n as nat),
{
    if n == 0 {
        return 0;
    }
    let ghost n0 = n;
    let mut n = n;
    let mut b: u64 = 1;
    let mut m = n & 0xFFFF_FFFF_0000_0000;
    if m > 0 {
        n = m;
        b += 32;
    }
    let ghost (n1, b1) = (n, b);
    m = n & 0xFFFF_0000_FFFF_0000;
    if m > 0 {
        n = m;
        b += 16;
    }
    let ghost (n2, b2) = (n, b);
    m = n & 0xFF00_FF00_FF00_FF00;
    if m > 0 {
        n = m;
        b += 8;
    }
    let ghost (n3, b3) = (n, b);
    m = n & 0xF0F0_F0F0_F0F0_F0F0;
    if m > 0 {
        n = m;
        b += 4;
    }
    let ghost (n4, b4) = (n, b);
    m = n & 0xCCCC_CCCC_CCCC_CCCC;
    if m > 0 {
        n = m;
        b += 2;
    }
    let ghost (n5, b5) = (n, b);
    m = n & 0xAAAA_AAAA_AAAA_AAAA;
    if m > 0 {
        b += 1;
    }
    assert(1 <= b <= 64 && (n0 >> ((b - 1) as u64)) == 1) by (bit_vector)
        requires
            n0 != 0,
            n1 == if n0 & 0xFFFF_FFFF_0000_0000 > 0 { n0 & 0xFFFF_FFFF_0000_0000 } else { n0 },
            b1 == if n0 & 0xFFFF_FFFF_0000_0000 > 0 { 33u64 } else { 1u64 },
            n2 == if n1 & 0xFFFF_0000_FFFF_0000 > 0 { n1 & 0xFFFF_0000_FFFF_0000 } else { n1 },
            b2 == if n1 & 0xFFFF_0000_FFFF_0000 > 0 { (b1 + 16) as u64 } else { b1 },
            n3 == if n2 & 0xFF00_FF00_FF00_FF00 > 0 { n2 & 0xFF00_FF00_FF00_FF00 } else { n2 },
            b3 == if n2 & 0xFF00_FF00_FF00_FF00 > 0 { (b2 + 8) as u64 } else { b2 },
            n4 == if n3 & 0xF0F0_F0F0_F0F0_F0F0 > 0 { n3 & 0xF0F0_F0F0_F0F0_F0F0 } else { n3 },
            b4 == if n3 & 0xF0F0_F0F0_F0F0_F0F0 > 0 { (b3 + 4) as u64 } else { b3 },
            n5 == if n4 & 0xCCCC_CCCC_CCCC_CCCC > 0 { n4 & 0xCCCC_CCCC_CCCC_CCCC } else { n4 },
            b5 == if n4 & 0xCCCC_CCCC_CCCC_CCCC > 0 { (b4 + 2) as u64 } else { b4 },
            b == if n5 & 0xAAAA_AAAA_AAAA_AAAA > 0 { (b5 + 1) as u64 } else { b5 },
    ;
    proof {
        bits::lemma_u64_shr_is_div(n0, (b - 1) as u64);
        lemma_bit_length_of_quotient(n0 as nat, (b - 1) as nat);
    }
    b
}

proof fn lemma_bit_length_bounds(n: nat)
    requires
        n > 0,
    ensures
        bit_length(n) >= 1,
        power2::pow2((bit_length(n) - 1) as nat) <= n < power2::pow2(bit_length(n)),
    decreases n,
{
    let k = bit_length(n);
    power2::lemma_pow2_unfold(k);
    if n == 1 {
        reveal(power::pow);
        assert(bit_length(0) == 0);
        assert(power2::pow2(0) == 1);
        assert(power2::pow2(1) == 2 * power2::pow2(0));
    } else {
        lemma_bit_length_bounds(n / 2);
        power2::lemma_pow2_unfold((k - 1) as nat);
    }
}

/// The sign bit.
pub open spec fn sign_field(bits: u64) -> bool {
    bits >> 63 == 1
}

/// The 11-bit biased exponent.
pub open spec fn exponent_field(bits: u64) -> u64 {
    (bits >> 52) & 0x7FF
}

/// The 52-bit stored mantissa.
pub open spec fn mantissa_field(bits: u64) -> u64 {
    bits & 0xF_FFFF_FFFF_FFFF
}

/// Neither an infinity nor a NaN.
pub open spec fn is_finite(bits: u64) -> bool {
    exponent_field(bits) != 0x7FF
}

/// `1.0` in the 52-bit fixed-point scale of a fraction.
pub open spec fn fraction_one() -> nat {
    0x10_0000_0000_0000
}

/// A finite double split into (negative, denormal, fraction, exponent).
/// The fraction is a 52-bit fixed-point value below one; the leading digit is
/// `0` for a denormal (and zero) and `1` otherwise; the exponent is unbiased.
/// A denormal is renormalised so that the fraction's top bit is set.
pub open spec fn decode(bits: u64) -> (bool, bool, nat, int) {
    let e = exponent_field(bits);
    let m = mantissa_field(bits) as nat;
    if e == 0 {
        if m == 0 {
            (sign_field(bits), true, 0, 0)
        } else {
            let h = bit_length(m);
            (sign_field(bits), true, m * power2::pow2((52 - h) as nat), h - 1074)
        }
    } else {
        (sign_field(bits), false, m, e - 1023)
    }
}

/// The magnitude of a finite double times 2^1074, which is an integer:
/// the mantissa for a denormal, else the mantissa with its implicit leading
/// one, shifted by the biased exponent.
pub open spec fn scaled_magnitude(bits: u64) -> nat {
    let e = exponent_field(bits);
    let m = mantissa_field(bits) as nat;
    if e == 0 {
        m
    } else {
        (fraction_one() + m) * power2::pow2((e - 1) as nat)
    }
}

/// The parts of a decoded double give back its value: the leading digit and
/// the fraction, scaled by two to the exponent, are the magnitude, and the
/// sign is the sign bit. (Both sides are multiplied by 2^1074 * 2^52.)
pub proof fn lemma_decode_value(bits: u64)
    requires
        is_finite(bits),
    ensures
        decode(bits).0 == sign_field(bits),
        decode(bits).3 + 1074 >= 0,
        ((if decode(bits).1 { 0 } else { fraction_one() }) + decode(bits).2) * power2::pow2(
            (decode(bits).3 + 1074) as nat,
        ) == scaled_magnitude(bits) * fraction_one(),
{
    let e = exponent_field(bits);
    let m = mantissa_field(bits) as nat;
    power2::lemma2_to64_rest();
    assert((bits >> 52) & 0x7FF <= 0x7FF) by (bit_vector);
    if e == 0 {
        if m > 0 {
            let h = bit_length(m);
            lemma_bit_length_bounds(m);
            if h > 52 {
                assert(bits & 0xF_FFFF_FFFF_FFFF < 0x10_0000_0000_0000u64) by (bit_vector);
                power2::lemma_pow2_strictly_increases(52, (h - 1) as nat);
            }
            power2::lemma_pow2_adds((52 - h) as nat, h as nat);
            let lo = power2::pow2((52 - h) as nat);
            let hi = power2::pow2(h as nat);
            assert(m * lo * hi == m * (lo * hi)) by (nonlinear_arith);
            assert(decode(bits).2 == m * power2::pow2((52 - h) as nat));
            assert((decode(bits).3 + 1074) as nat == h);
            assert(power2::pow2((52 - h) as nat) * power2::pow2(h as nat) == fraction_one());
        } else {
            assert(decode(bits).2 == 0);
            assert(scaled_magnitude(bits) == 0);
            assert(decode(bits).1);
            let p = power2::pow2((decode(bits).3 + 1074) as nat);
            assert((0 + 0) * p == 0 * fraction_one()) by (nonlinear_arith);
        }
    } else {
        power2::lemma_pow2_adds((e - 1) as nat, 52);
        let scale = power2::pow2((e - 1) as nat);
        assert((fraction_one() + m) * scale * power2::pow2(52) == (fraction_one() + m) * (scale
            * power2::pow2(52))) by (nonlinear_arith);
        assert((decode(bits).3 + 1074) as nat == (e - 1) as nat + 52);
        assert(decode(bits).2 == m);
    }
}

/// Splits the bit pattern of a finite double into sign, denormal flag,
/// fraction (52 fractional bits) and unbiased exponent.
pub fn f64_decode(bits: u64) -> (r: (bool, bool, u64, i64))
    requires
        is_finite(bits),
    ensures
        (r.0, r.1, r.2 as nat, r.3 as int) == decode(bits),
        r.2 < fraction_one(),
        -1074 <= r.3 <= 1023,
{
    let s = bits >> 63;
    let e = (bits >> 52) & 0x7FF;
    let mut m = bits & 0xF_FFFF_FFFF_FFFF;
    assert(m < 0x10_0000_0000_0000) by (bit_vector)
        requires
            m == bits & 0xF_FFFF_FFFF_FFFF,
    ;
    assert(e <= 0x7FF) by (bit_vector)
        requires
            e == (bits >> 52) & 0x7FF,
    ;
    assert(s <= 1) by (bit_vector)
        requires
            s == bits >> 63,
    ;
    let mut exp = e as i64 - 1023;
    if e == 0 {
        if m == 0 {
            return (s > 0, true, 0, 0);
        }
        let h = hi_bit_1(m);
        proof {
            lemma_bit_length_bounds(m as nat);
            power2::lemma2_to64_rest();
            if h > 52 {
                power2::lemma_pow2_strictly_increases(52, (h - 1) as nat);
            }
        }
        exp = -(1022 + 52 - h as i64);
        let ghost m0 = m;
        proof {
            power2::lemma_pow2_adds((52 - h) as nat, h as nat);
            assert(m0 * power2::pow2((52 - h) as nat) < 0x10_0000_0000_0000) by (nonlinear_arith)
                requires
                    m0 < power2::pow2(h as nat),
                    power2::pow2((52 - h) as nat) * power2::pow2(h as nat) == 0x10_0000_0000_0000,
            ;
            bits::lemma_u64_shl_is_mul(m0, (52 - h) as u64);
        }
        m <<= 52 - h;
    }
    (s > 0, e == 0, m, exp)
}

/// Six decimal digits of a fraction below one, truncated, zero-padded on the left.
pub open spec fn fraction_digits(f: nat) -> Seq<u8> {
    let d = digits::dec_digits(f * 1000000 / fraction_one());
    Seq::new((6 - d.len()) as nat, |_i| 48u8) + d
}

/// The text of a double given by its bit pattern: `nan`, `inf`, `-inf`, or
/// `[-]d.dddddd*2^[-]E` with the parts of `decode`.
pub open spec fn double_text(bits: u64) -> Seq<u8> {
    if !is_finite(bits) {
        if mantissa_field(bits) != 0 {
            seq![110u8, 97u8, 110u8]
        } else if sign_field(bits) {
            seq![45u8, 105u8, 110u8, 102u8]
        } else {
            seq![105u8, 110u8, 102u8]
        }
    } else {
        let (negative, denormal, fraction, exponent) = decode(bits);
        (if negative { seq![45u8] } else { Seq::empty() }) + seq![
            if denormal { 48u8 } else { 49u8 },
            46u8,
        ] + fraction_digits(fraction) + seq![42u8, 50u8, 94u8] + digits::signed_digits(exponent)
    }
}

/// Writes the six fraction digits of `fract` so that they end just before `end`.
fn fraction_buf(fract: u64, buf: &mut [u8; 24], end: usize) -> (pos: usize)
    requires
        fract < fraction_one(),
        6 <= end <= SCRATCH_LEN,
    ensures
        pos == end - 6,
        final(buf)@.subrange(pos as int, end as int) == fraction_digits(fract as nat),
        final(buf)@.subrange(end as int, 24) == old(buf)@.subrange(end as int, 24),
{
    let d6 = (fract as u128 * 1000000 / 0x10_0000_0000_0000) as u64;
    let ghost d = digits::dec_digits(d6 as nat);
    proof {
        assert(d6 < 1000000);
        reveal_with_fuel(power::pow, 7);
        digits::lemma_digits_len(10, d6 as nat, 6);
    }
    let ghost rest = old(buf)@.subrange(end as int, 24);
    let mut pos = u64_buf(d6, buf, end);
    assert(buf@.subrange(pos as int, 24) =~= buf@.subrange(pos as int, end as int) + buf@.subrange(
        end as int,
        24,
    ));
    while end - pos < 6
        invariant
            pos <= end <= SCRATCH_LEN,
            end - pos <= 6,
            end - d.len() >= pos,
            d.len() >= 1,
            end >= 6,
            buf@.subrange(pos as int, 24) == Seq::new((end - pos - d.len()) as nat, |_i| 48u8) + d
                + rest,
        decreases pos,
    {
        pos = put(buf, pos, 48);  // '0'
        assert(buf@.subrange(pos as int, 24) =~= Seq::new((end - pos - d.len()) as nat, |_i| 48u8)
            + d + rest);
    }
    assert(buf@.subrange(pos as int, end as int) =~= buf@.subrange(pos as int, 24).subrange(
        0,
        6,
    ));
    assert(buf@.subrange(end as int, 24) =~= buf@.subrange(pos as int, 24).subrange(6, 24 - pos));
    assert(buf@.subrange(pos as int, end as int) =~= fraction_digits(fract as nat));
    pos
}

/// Writes `nan`, `inf` or `-inf` at the end of `buf`.
fn special_buf(bits: u64, buf: &mut [u8; 24]) -> (pos: usize)
    requires
        !is_finite(bits),
    ensures
        pos <= SCRATCH_LEN,
        final(buf)@.subrange(pos as int, 24) == double_text(bits),
{
    let mut pos = SCRATCH_LEN;
    if bits & 0xF_FFFF_FFFF_FFFF != 0 {
        pos = put(buf, pos, 110);  // n
        pos = put(buf, pos, 97);  // a
        pos = put(buf, pos, 110);  // n
    } else {
        pos = put(buf, pos, 102);  // f
        pos = put(buf, pos, 110);  // n
        pos = put(buf, pos, 105);  // i
        if bits >> 63 == 1 {
            pos = put(buf, pos, 45);  // -
        }
    }
    assert(buf@.subrange(pos as int, 24) =~= double_text(bits));
    pos
}

/// Renders the double whose bit pattern is `bits` at the end of `buf` and
/// returns where the text starts.
pub fn f64_buf(bits: u64, buf: &mut [u8; 24]) -> (pos: usize)
    ensures
        pos <= SCRATCH_LEN,
        final(buf)@.subrange(pos as int, 24) == double_text(bits),
{
    if (bits >> 52) & 0x7FF == 0x7FF {
        return special_buf(bits, buf);
    }
    let (sign, denormal, fract, exp) = f64_decode(bits);
    let ghost exponent_text = digits::signed_digits(exp as int);
    proof {
        let mag: nat = if exp < 0 { (-exp) as nat } else { exp as nat };
        reveal_with_fuel(power::pow, 5);
        digits::lemma_digits_len(10, mag, 4);
    }
    let mut pos = i64_buf(exp, buf);
    assert(buf@.subrange(pos as int, 24).len() == exponent_text.len());
    pos = put(buf, pos, 94);  // ^
    pos = put(buf, pos, 50);  // 2
    pos = put(buf, pos, 42);  // *
    let ghost tail = buf@.subrange(pos as int, 24);
    let end = pos;
    pos = fraction_buf(fract, buf, end);
    assert(buf@.subrange(pos as int, 24) =~= fraction_digits(fract as nat) + tail) by {
        assert(buf@.subrange(pos as int, 24) =~= buf@.subrange(pos as int, end as int) + buf@.subrange(
            end as int,
            24,
        ));
    }
    pos = put(buf, pos, 46);  // .
    pos = put(buf, pos, if denormal { 48 } else { 49 });
    if sign {
        pos = put(buf, pos, 45);  // -
    }
    assert(buf@.subrange(pos as int, 24) =~= double_text(bits));
    pos
}

} // verus!
