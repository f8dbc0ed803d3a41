use vstd::prelude::*;
use vstd::utf8;

verus! {

/// Writes the UTF-8 encoding of `c` into the tail of `buf` and returns that tail:
/// one byte up to 0x7F, two up to 0x7FF, three up to 0xFFFF, four above.
pub fn encode_utf8(c: char, buf: &mut [u8; 4]) -> (r: &[u8])
    ensures
        r@ == utf8::encode_scalar(c as u32),
{
    let ghost v = c as u32;
    let mut u = c as u32;
    assert(forall|x: u32| #[trigger] (x & 0x3F) <= 0x3F) by (bit_vector);
    if u <= 0x7F {
        buf[3] = u as u8;
        let r = &buf[3..4];
        assert(r@ =~= utf8::encode_scalar(v)) by {
            assert((v & 0x7F) == v) by (bit_vector)
                requires
                    v <= 0x7F,
            ;
        }
        return r;
    }
    buf[3] = ((u & 0x3F) as u8) | 0x80;
    assert(((v & 0x3F) as u8) | 0x80 == utf8::last_continuation_byte(v)) by (bit_vector);
    u >>= 6;
    if u <= 0x1F {
        assert((v >> 6) | 0xC0 < 0x100) by (bit_vector)
            requires
                (v >> 6) <= 0x1F,
        ;
        buf[2] = (u | 0xC0) as u8;
        let r = &buf[2..4];
        assert(r@ =~= utf8::encode_scalar(v)) by {
            assert(((v >> 6) | 0xC0) as u8 == utf8::leading_byte_width_2(v) && v <= 0x7FF)
                by (bit_vector)
                requires
                    (v >> 6) <= 0x1F,
            ;
        }
        return r;
    }
    buf[2] = ((u & 0x3F) as u8) | 0x80;
    assert((((v >> 6) & 0x3F) as u8) | 0x80 == utf8::second_last_continuation_byte(v)) by (bit_vector);
    assert((v >> 6) >> 6 == v >> 12) by (bit_vector);
    u >>= 6;
    if u <= 0xF {
        assert((v >> 12) | 0xE0 < 0x100) by (bit_vector)
            requires
                (v >> 12) <= 0xF,
        ;
        buf[1] = (u | 0xE0) as u8;
        let r = &buf[1..4];
        assert(r@ =~= utf8::encode_scalar(v)) by {
            assert(((v >> 12) | 0xE0) as u8 == utf8::leading_byte_width_3(v)) by (bit_vector)
                requires
                    (v >> 12) <= 0xF,
            ;
            assert(0x800 <= v <= 0xFFFF) by (bit_vector)
                requires
                    (v >> 12) <= 0xF,
                    (v >> 6) > 0x1F,
            ;
        }
        return r;
    }
    buf[1] = ((u & 0x3F) as u8) | 0x80;
    assert((((v >> 12) & 0x3F) as u8) | 0x80 == utf8::third_last_continuation_byte(v)) by (bit_vector);
    assert((v >> 12) >> 6 == v >> 18) by (bit_vector);
    u >>= 6;
    assert((v >> 18) | 0xF0 < 0x100 && ((v >> 18) | 0xF0) as u8 == utf8::leading_byte_width_4(v))
        by (bit_vector)
        requires
            v <= 0x10FFFF,
    ;
    assert(v > 0xFFFF) by (bit_vector)
        requires
            (v >> 12) > 0xF,
    ;
    buf[0] = (u | 0xF0) as u8;
    assert(buf@ =~= utf8::encode_scalar(v));
    buf
}

} // verus!
