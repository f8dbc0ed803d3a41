use hifmt::{args_match, compile, render, Arg, BufFormatter, Formatter};

fn rendered(format: &str, args: &[Arg], capacity: usize) -> (usize, Vec<u8>) {
    let program = compile(format, args.len()).unwrap();
    assert!(args_match(&program, args));
    let mut sink = BufFormatter::new(vec![0u8; capacity]);
    let n = render(&program, args, &mut sink);
    (n, sink.contents().to_vec())
}

#[test]
fn bounded_sink_truncates_and_counts() {
    let mut sink = BufFormatter::new(vec![0u8; 3]);
    assert_eq!(sink.write(b"hello"), 5);
    assert_eq!(sink.contents(), b"hel");
    assert_eq!(sink.write_buf(b"!"), 1);
    assert_eq!(sink.contents(), b"hel");
    assert_eq!(sink.capacity(), 3);
    assert_eq!(sink.into_inner(), b"hel".to_vec());
}

#[test]
fn bounded_sink_fills_in_steps() {
    let mut sink = BufFormatter::new(vec![b'.'; 6]);
    assert_eq!(sink.write(b"ab"), 2);
    assert_eq!(sink.write(b""), 0);
    assert_eq!(sink.write(b"cd"), 2);
    assert_eq!(sink.contents(), b"abcd");
    assert_eq!(sink.into_inner(), b"abcd..".to_vec());
}

#[test]
fn sink_without_room_still_counts() {
    let mut sink = <BufFormatter as Formatter>::new(1);
    assert_eq!(sink.write_u64(12345), 5);
    assert_eq!(sink.contents(), b"");
    let (n, out) = rendered("{:rs}", &[Arg::Slice(b"hello world")], 0);
    assert_eq!(n, 11);
    assert!(out.is_empty());
}

#[test]
fn null_c_string() {
    let mut sink = BufFormatter::new(vec![0u8; 16]);
    assert_eq!(sink.write_cstr(None), 4);
    assert_eq!(sink.contents(), b"null");
}

#[test]
fn c_string_stops_at_zero() {
    let mut sink = BufFormatter::new(vec![0u8; 16]);
    assert_eq!(sink.write_cstr(Some(b"abc\0def\0")), 3);
    assert_eq!(sink.write_cstr(Some(b"xy")), 2);
    assert_eq!(sink.write_cstr(Some(b"\0")), 0);
    assert_eq!(sink.contents(), b"abcxy");
}

#[test]
fn formatter_methods() {
    let mut sink = BufFormatter::new(vec![0u8; 64]);
    assert_eq!(sink.write_i64(-42), 3);
    assert_eq!(sink.write_buf(b" "), 1);
    assert_eq!(sink.write_hex(0xabc), 3);
    assert_eq!(sink.write_buf(b" "), 1);
    assert_eq!(sink.write_ptr(0), 3);
    assert_eq!(sink.write_buf(b" "), 1);
    assert_eq!(sink.write_f64_bits(1.5f64.to_bits()), 12);
    assert_eq!(sink.contents(), b"-42 abc 0x0 1.500000*2^0");
}

#[test]
fn render_every_verb() {
    let args = [
        Arg::Int(-100),
        Arg::Uint(200),
        Arg::Uint(300),
        Arg::F64Bits(400.0f64.to_bits()),
        Arg::Addr(0x1f),
        Arg::CStr(Some(b"c str\0")),
        Arg::Slice(b"str"),
        Arg::Slice(&[0x62, 0x00, 0x79]),
        Arg::Byte(b'0'),
        Arg::Char('\u{4e2d}'),
    ];
    let (n, out) = rendered(
        "d={:d} u={:u} x={:x} e={:e} p={:p} cs={:cs} rs={:rs} rb={:rb} cc={:cc} rc={:rc}",
        &args,
        128,
    );
    let mut want = b"d=-100 u=200 x=12c e=1.562500*2^8 p=0x1f cs=c str rs=str rb=b".to_vec();
    want.extend_from_slice(b"\0y cc=0 rc=");
    want.extend_from_slice("\u{4e2d}".as_bytes());
    assert_eq!(out, want);
    assert_eq!(n, want.len());
}

#[test]
fn render_escaped_literal() {
    let (n, out) = rendered("a{{b}}c", &[], 16);
    assert_eq!(out, b"a{b}c");
    assert_eq!(n, 5);
}

#[test]
fn render_truncates_but_reports_full_length() {
    let (n, out) = rendered("{:d}-{:d}", &[Arg::Int(1234), Arg::Int(-5678)], 6);
    assert_eq!(out, b"1234--");
    assert_eq!(n, 10);
}

#[test]
fn arguments_must_fit_their_verbs() {
    let program = compile("{:d} {:rs}", 2).unwrap();
    assert!(args_match(&program, &[Arg::Int(1), Arg::Slice(b"x")]));
    assert!(!args_match(&program, &[Arg::Uint(1), Arg::Slice(b"x")]));
    assert!(!args_match(&program, &[Arg::Int(1)]));
    assert!(!args_match(&program, &[Arg::Int(1), Arg::Slice(b"x"), Arg::Int(2)]));
    let hex = compile("{:x}", 1).unwrap();
    assert!(args_match(&hex, &[Arg::Uint(7)]));
    assert!(!args_match(&hex, &[Arg::Int(7)]));
}
