use hifmt::double::{f64_buf, f64_decode};

fn datas() -> &'static [f64] {
    &[
        -2.25123f64,
        7.534678f64,
        -2.2578888e-5f64,
        7.5000789e10f64,
        -7.534000123e200f64,
        10.300099911e256,
        10.3000789e-100,
        -0.0,
        f64::MIN,
        f64::MAX,
    ]
}

/// The fraction comes back with 52 fractional bits.
fn fraction(bits: u64) -> f64 {
    bits as f64 / 4503599627370496.0
}

#[test]
fn test_f64() {
    let f = 1.5f64;
    let (sign, denormal, fract, exp) = f64_decode(f.to_bits());
    assert_eq!(fraction(fract), 0.5f64);
    assert_eq!(exp, 0);
    assert_eq!(sign, false);
    assert_eq!(denormal, false);

    let mut buf = [0_u8; 24];
    for f in datas() {
        let pos = f64_buf(f.to_bits(), &mut buf);
        let s = core::str::from_utf8(&buf[pos..]).unwrap();
        let (sign, denormal, fract, exp) = f64_decode(f.to_bits());
        let fract = fraction(fract);
        let mut nf = if denormal { fract } else { 1.0 + fract };
        nf = nf * 2_f64.powf(exp as f64);
        if sign {
            nf = -nf;
        }
        println!("{f}, {nf} {s}");
        assert_eq!(*f, nf);
    }
}
