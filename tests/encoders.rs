use hifmt::double::{f64_buf, f64_decode};
use hifmt::encode_utf8;
use hifmt::scratch::{hex_buf, i64_buf, ptr_buf, u64_buf};

fn text(buf: &[u8; 24], pos: usize) -> String {
    String::from_utf8(buf[pos..].to_vec()).unwrap()
}

fn dec(v: u64) -> String {
    let mut buf = [0u8; 24];
    let pos = u64_buf(v, &mut buf, 24);
    text(&buf, pos)
}

fn signed(v: i64) -> String {
    let mut buf = [0u8; 24];
    let pos = i64_buf(v, &mut buf);
    text(&buf, pos)
}

fn hex(v: u64) -> String {
    let mut buf = [0u8; 24];
    let pos = hex_buf(v, &mut buf, 24);
    text(&buf, pos)
}

fn pointer(addr: usize) -> String {
    let mut buf = [0u8; 24];
    let pos = ptr_buf(addr, &mut buf);
    text(&buf, pos)
}

fn double(v: f64) -> String {
    let mut buf = [0u8; 24];
    let pos = f64_buf(v.to_bits(), &mut buf);
    text(&buf, pos)
}

#[test]
fn unsigned_decimal() {
    assert_eq!(dec(0), "0");
    assert_eq!(dec(7), "7");
    assert_eq!(dec(10), "10");
    assert_eq!(dec(1234567890), "1234567890");
    assert_eq!(dec(u64::MAX), "18446744073709551615");
}

#[test]
fn unsigned_decimal_leaves_the_rest_of_the_buffer() {
    let mut buf = [b'#'; 24];
    let pos = u64_buf(305, &mut buf, 20);
    assert_eq!(pos, 17);
    assert_eq!(&buf[17..20], b"305");
    assert_eq!(&buf[..17], &[b'#'; 17][..]);
    assert_eq!(&buf[20..], b"####");
}

#[test]
fn signed_decimal() {
    assert_eq!(signed(0), "0");
    assert_eq!(signed(-1), "-1");
    assert_eq!(signed(100), "100");
    assert_eq!(signed(i64::MAX), "9223372036854775807");
    assert_eq!(signed(i64::MIN), "-9223372036854775808");
}

#[test]
fn signed_decimal_round_trips() {
    for v in [0, 1, -1, 9, -10, 4096, -65535, i64::MAX, i64::MIN, i64::MIN + 1] {
        assert_eq!(signed(v).parse::<i64>().unwrap(), v);
    }
}

#[test]
fn hex_has_no_leading_zeros() {
    assert_eq!(hex(0), "0");
    assert_eq!(hex(1), "1");
    assert_eq!(hex(255), "ff");
    assert_eq!(hex(0x1000), "1000");
    assert_eq!(hex(0xdead_beef), "deadbeef");
    assert_eq!(hex(u64::MAX), "ffffffffffffffff");
    for v in [1u64, 15, 16, 0x10_0000, u64::MAX] {
        assert!(!hex(v).starts_with('0'));
    }
}

#[test]
fn pointer_text() {
    assert_eq!(pointer(0), "0x0");
    assert_eq!(pointer(0x7fff_1234), "0x7fff1234");
    assert_eq!(pointer(usize::MAX), format!("0x{:x}", usize::MAX));
}

#[test]
fn utf8_widths() {
    let mut buf = [0u8; 4];
    assert_eq!(encode_utf8('A', &mut buf), b"A");
    assert_eq!(encode_utf8('\u{e4}', &mut buf), "\u{e4}".as_bytes());
    assert_eq!(encode_utf8('\u{4e2d}', &mut buf), &[0xE4, 0xB8, 0xAD]);
    assert_eq!(encode_utf8('\u{1F600}', &mut buf), "\u{1F600}".as_bytes());
    assert_eq!(encode_utf8('\u{7FF}', &mut buf), "\u{7FF}".as_bytes());
    assert_eq!(encode_utf8('\u{FFFF}', &mut buf), "\u{FFFF}".as_bytes());
    assert_eq!(encode_utf8('\u{10FFFF}', &mut buf), "\u{10FFFF}".as_bytes());
}

#[test]
fn double_one_and_a_half() {
    let (sign, denormal, fract, exp) = f64_decode(1.5f64.to_bits());
    assert!(!sign);
    assert!(!denormal);
    assert_eq!(fract, 1u64 << 51);
    assert_eq!(exp, 0);
    assert_eq!(double(1.5), "1.500000*2^0");
}

#[test]
fn double_texts() {
    assert_eq!(double(-2.25), "-1.125000*2^1");
    assert_eq!(double(0.0), "0.000000*2^0");
    assert_eq!(double(-0.0), "-0.000000*2^0");
    assert_eq!(double(0.75), "1.500000*2^-1");
    assert_eq!(double(400.0), "1.562500*2^8");
    assert_eq!(double(f64::MAX), "1.999999*2^1023");
    assert_eq!(double(f64::MIN_POSITIVE), "1.000000*2^-1022");
    assert_eq!(double(f64::from_bits(1)), "0.500000*2^-1073");
    assert_eq!(double(f64::from_bits(3)), "0.750000*2^-1072");
}

#[test]
fn double_specials() {
    assert_eq!(double(f64::NAN), "nan");
    assert_eq!(double(f64::INFINITY), "inf");
    assert_eq!(double(f64::NEG_INFINITY), "-inf");
}

#[test]
fn denormal_decode() {
    let (sign, denormal, fract, exp) = f64_decode(f64::from_bits(1).to_bits());
    assert!(!sign);
    assert!(denormal);
    assert_eq!(fract, 1u64 << 51);
    assert_eq!(exp, -1073);
    let (sign, denormal, fract, exp) = f64_decode((-0.0f64).to_bits());
    assert!(sign);
    assert!(denormal);
    assert_eq!(fract, 0);
    assert_eq!(exp, 0);
}
