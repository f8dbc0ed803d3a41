//! Scratch encoders: each renders one value into the tail of a small stack
//! buffer, last digit first, and returns where the text starts.
use vstd::prelude::*;
use crate::digits;

verus! {

/// Size of the stack buffer one encoder works in; every encoding fits.
pub const SCRATCH_LEN: usize = 24;

/// The digits of `n` in base `base` when `n` is not zero, nothing for zero.
spec fn pending_digits(base: nat, n: nat) -> Seq<u8> {
    if n == 0 {
        Seq::empty()
    } else {
        digits::digits_in(base, n)
    }
}

/// Writes `val` in base `base` so that its last digit sits just before `end`,
/// and returns the index of its first digit. Nothing outside that range changes.
fn radix_buf(val: u64, base: u64, buf: &mut [u8; 24], end: usize) -> (pos: usize)
    requires
        base == 10 || base == 16,
        end <= SCRATCH_LEN,
        digits::digits_in(base as nat, val as nat).len() <= end,
    ensures
        pos < end,
        final(buf)@.subrange(pos as int, end as int) == digits::digits_in(base as nat, val as nat),
        final(buf)@.subrange(0, pos as int) == old(buf)@.subrange(0, pos as int),
        final(buf)@.subrange(end as int, 24) == old(buf)@.subrange(end as int, 24),
{
    let ghost b = base as nat;
    proof {
        digits::lemma_digits_first(b, val as nat);
    }
    let mut pos = end;
    let mut v = val;
    let mut first = true;
    while first || v > 0
        invariant
            pos <= end <= SCRATCH_LEN,
            base == 10 || base == 16,
            b == base as nat,
            first ==> pos == end && v == val,
            digits::digits_in(b, val as nat).len() <= end,
            !first ==> digits::digits_in(b, val as nat) == pending_digits(b, v as nat) + buf@.subrange(
                pos as int,
                end as int,
            ),
            first ==> digits::digits_in(b, val as nat).len() >= 1,
            buf@.subrange(0, pos as int) == old(buf)@.subrange(0, pos as int),
            buf@.subrange(end as int, 24) == old(buf)@.subrange(end as int, 24),
        decreases pos,
    {
        let ghost before = buf@;
        let ghost tail = buf@.subrange(pos as int, end as int);
        let ghost vn = v as nat;
        proof {
            digits::lemma_digits_first(b, vn);
            if !first {
                assert(pending_digits(b, vn) == digits::digits_in(b, vn));
            }
        }
        pos -= 1;
        let n = v % base;
        if n < 10 {
            buf[pos] = 48 + n as u8;  // '0'
        } else {
            buf[pos] = 97 + (n - 10) as u8;  // 'a'
        }
        v = v / base;
        first = false;
        proof {
            assert(buf@.subrange(pos as int, end as int) =~= seq![digits::digit_char(vn % b)] + tail);
            assert(buf@.subrange(0, pos as int) =~= before.subrange(0, pos as int));
            assert(buf@.subrange(end as int, 24) =~= before.subrange(end as int, 24));
            if vn >= b {
                assert(pending_digits(b, v as nat) == digits::digits_in(b, vn / b));
                assert(digits::digits_in(b, vn) == digits::digits_in(b, vn / b).push(
                    digits::digit_char(vn % b),
                ));
            } else {
                assert(v == 0);
                assert(digits::digits_in(b, vn) == seq![digits::digit_char(vn)]);
            }
            assert(digits::digits_in(b, val as nat) =~= pending_digits(b, v as nat) + buf@.subrange(
                pos as int,
                end as int,
            ));
        }
    }
    proof {
        assert(pending_digits(b, v as nat) =~= Seq::<u8>::empty());
        assert(digits::digits_in(b, val as nat) =~= buf@.subrange(pos as int, end as int));
    }
    pos
}

/// Stores `byte` just before `pos` and returns its index.
pub(crate) fn put(buf: &mut [u8; 24], pos: usize, byte: u8) -> (r: usize)
    requires
        0 < pos <= SCRATCH_LEN,
    ensures
        r == pos - 1,
        final(buf)@.subrange(r as int, 24) == seq![byte] + old(buf)@.subrange(pos as int, 24),
{
    buf[pos - 1] = byte;
    assert(buf@.subrange(pos - 1, 24) =~= seq![byte] + old(buf)@.subrange(pos as int, 24));
    pos - 1
}

/// Base-10 digits of `val`, ending just before `end`.
pub fn u64_buf(val: u64, buf: &mut [u8; 24], end: usize) -> (pos: usize)
    requires
        end <= SCRATCH_LEN,
        digits::dec_digits(val as nat).len() <= end,
    ensures
        pos < end,
        final(buf)@.subrange(pos as int, end as int) == digits::dec_digits(val as nat),
        final(buf)@.subrange(0, pos as int) == old(buf)@.subrange(0, pos as int),
        final(buf)@.subrange(end as int, 24) == old(buf)@.subrange(end as int, 24),
{
    radix_buf(val, 10, buf, end)
}

/// Base-16 digits of `val`, lower case, ending just before `end`.
pub fn hex_buf(val: u64, buf: &mut [u8; 24], end: usize) -> (pos: usize)
    requires
        end <= SCRATCH_LEN,
        digits::hex_digits(val as nat).len() <= end,
    ensures
        pos < end,
        final(buf)@.subrange(pos as int, end as int) == digits::hex_digits(val as nat),
        final(buf)@.subrange(0, pos as int) == old(buf)@.subrange(0, pos as int),
        final(buf)@.subrange(end as int, 24) == old(buf)@.subrange(end as int, 24),
{
    radix_buf(val, 16, buf, end)
}

/// Decimal text of `val`, with `-` before a negative value, at the end of `buf`.
/// The magnitude comes from the two's-complement bits, so `i64::MIN` is no special case.
pub fn i64_buf(val: i64, buf: &mut [u8; 24]) -> (pos: usize)
    ensures
        pos < SCRATCH_LEN,
        final(buf)@.subrange(pos as int, 24) == digits::signed_digits(val as int),
{
    let magnitude: u64 = if val < 0 {
        0u64.wrapping_sub(#[verifier::truncate] (val as u64))
    } else {
        val as u64
    };
    assert(magnitude as int == if val < 0 { -(val as int) } else { val as int }) by {
        if val < 0 {
            assert((#[verifier::truncate] (val as u64)) as int == val as int + 0x1_0000_0000_0000_0000int)
                by (bit_vector)
                requires
                    val < 0,
            ;
        }
    }
    proof {
        digits::lemma_dec_len_u64(magnitude);
    }
    let mut pos = u64_buf(magnitude, buf, SCRATCH_LEN);
    if val < 0 {
        let ghost digits_text = buf@.subrange(pos as int, 24);
        pos -= 1;
        buf[pos] = 45;  // '-'
        assert(buf@.subrange(pos as int, 24) =~= seq![45u8] + digits_text);
    }
    pos
}

/// `0x` and the base-16 digits of the address, at the end of `buf`; address zero is `0x0`.
pub fn ptr_buf(addr: usize, buf: &mut [u8; 24]) -> (pos: usize)
    ensures
        pos < SCRATCH_LEN,
        final(buf)@.subrange(pos as int, 24) == digits::pointer_text(addr as nat),
{
    proof {
        digits::lemma_hex_len_u64(addr as u64);
    }
    let mut pos = hex_buf(addr as u64, buf, SCRATCH_LEN);
    let ghost digits_text = buf@.subrange(pos as int, 24);
    pos -= 1;
    buf[pos] = 120;  // 'x'
    pos -= 1;
    buf[pos] = 48;  // '0'
    assert(buf@.subrange(pos as int, 24) =~= seq![48u8, 120u8] + digits_text);
    pos
}

} // verus!
