//! The text that the integer encoders produce, and what holds of it.
use vstd::prelude::*;
use vstd::arithmetic::power;

verus! {

/// The ASCII character of one digit: `0`-`9`, then lower-case `a`-`f`.
pub open spec fn digit_char(d: nat) -> u8 {
    if d < 10 {
        (48 + d) as u8
    } else {
        (87 + d) as u8
    }
}

/// `n` written in base `base`, most significant digit first, without leading zeros;
/// zero is the single digit `0`.
pub open spec fn digits_in(base: nat, n: nat) -> Seq<u8>
    decreases n
    via digits_in_decreases
{
    if base < 2 || n < base {
        seq![digit_char(n)]
    } else {
        digits_in(base, n / base).push(digit_char(n % base))
    }
}

#[via_fn]
proof fn digits_in_decreases(base: nat, n: nat) {
    if !(base < 2 || n < base) {
        assert(n / base < n) by (nonlinear_arith)
            requires
                n >= base,
                base >= 2,
        ;
    }
}

/// Base-10 text of `n`.
pub open spec fn dec_digits(n: nat) -> Seq<u8> {
    digits_in(10, n)
}

/// Base-16 text of `n`, lower case.
pub open spec fn hex_digits(n: nat) -> Seq<u8> {
    digits_in(16, n)
}

/// Base-10 text of `v`, with a leading `-` when it is negative.
pub open spec fn signed_digits(v: int) -> Seq<u8> {
    if v < 0 {
        seq![45u8] + dec_digits((-v) as nat)
    } else {
        dec_digits(v as nat)
    }
}

/// `0x` followed by the base-16 text of the address.
pub open spec fn pointer_text(addr: nat) -> Seq<u8> {
    seq![48u8, 120u8] + hex_digits(addr)
}

/// The value of a run of ASCII decimal digits.
pub open spec fn parse_unsigned(s: Seq<u8>) -> int
    decreases s.len(),
{
    if s.len() == 0 {
        0
    } else {
        parse_unsigned(s.drop_last()) * 10 + (s.last() - 48)
    }
}

/// The value of decimal text with an optional leading `-`.
pub open spec fn parse_signed(s: Seq<u8>) -> int {
    if s.len() > 0 && s[0] == 45u8 {
        -parse_unsigned(s.drop_first())
    } else {
        parse_unsigned(s)
    }
}

/// A number below `base^k` has between 1 and `k` digits.
pub proof fn lemma_digits_len(base: nat, n: nat, k: nat)
    requires
        base >= 2,
        k >= 1,
        n < power::pow(base as int, k),
    ensures
        1 <= digits_in(base, n).len() <= k,
    decreases n,
{
    reveal(power::pow);
    if n >= base {
        assert(k >= 2) by {
            if k == 1 {
                assert(power::pow(base as int, 1) == base * power::pow(base as int, 0));
            }
        }
        let p = power::pow(base as int, (k - 1) as nat);
        assert(power::pow(base as int, k) == base * p);
        assert(n / base < p) by (nonlinear_arith)
            requires
                n < base * p,
                base >= 2,
        ;
        assert(n / base < n) by (nonlinear_arith)
            requires
                n >= base,
                base >= 2,
        ;
        lemma_digits_len(base, n / base, (k - 1) as nat);
    }
}

/// A `u64` has at most 20 decimal digits.
pub proof fn lemma_dec_len_u64(n: u64)
    ensures
        1 <= dec_digits(n as nat).len() <= 20,
{
    reveal_with_fuel(power::pow, 21);
    assert(power::pow(10, 20) == 100000000000000000000int);
    lemma_digits_len(10, n as nat, 20);
}

/// A `u64` has at most 16 hexadecimal digits.
pub proof fn lemma_hex_len_u64(n: u64)
    ensures
        1 <= hex_digits(n as nat).len() <= 16,
{
    reveal_with_fuel(power::pow, 17);
    assert(power::pow(16, 16) == 0x1_0000_0000_0000_0000int);
    lemma_digits_len(16, n as nat, 16);
}

/// Digit text is never empty and never starts with `-`; it starts with `0`
/// only for zero, which is that single digit.
pub proof fn lemma_digits_first(base: nat, n: nat)
    requires
        2 <= base <= 16,
    ensures
        digits_in(base, n).len() >= 1,
        n > 0 ==> digits_in(base, n)[0] != 48u8,
        n == 0 ==> digits_in(base, n) == seq![48u8],
        digits_in(base, n)[0] != 45u8,
    decreases n,
{
    if n >= base {
        assert(n / base > 0 && n / base < n) by (nonlinear_arith)
            requires
                n >= base,
                base >= 2,
        ;
        lemma_digits_first(base, n / base);
    }
}

proof fn lemma_parse_dec(n: nat)
    ensures
        parse_unsigned(dec_digits(n)) == n,
    decreases n,
{
    let s = dec_digits(n);
    if n >= 10 {
        let q = n / 10;
        lemma_parse_dec(q);
        assert(s.drop_last() =~= dec_digits(q));
        assert(s.last() == 48 + n % 10);
        assert(n == q * 10 + n % 10);
        assert(parse_unsigned(s) == parse_unsigned(dec_digits(q)) * 10 + n % 10);
    } else {
        assert(s.drop_last() =~= Seq::<u8>::empty());
        assert(parse_unsigned(s.drop_last()) == 0);
    }
}

/// Decimal text read back as a signed integer gives the value that was encoded,
/// for every `i64`, the most negative one included.
pub proof fn lemma_signed_round_trip(v: i64)
    ensures
        parse_signed(signed_digits(v as int)) == v,
{
    let m: nat = if v < 0 { (-(v as int)) as nat } else { v as nat };
    lemma_parse_dec(m);
    lemma_digits_first(10, m);
    let s = signed_digits(v as int);
    if v < 0 {
        assert(s.drop_first() =~= dec_digits(m));
    }
}

/// Hexadecimal text has no leading zero digit; only zero itself is written `0`.
pub proof fn lemma_hex_no_leading_zero(v: u64)
    ensures
        hex_digits(v as nat).len() >= 1,
        hex_digits(v as nat)[0] == 48u8 <==> v == 0,
        v == 0 ==> hex_digits(v as nat) == seq![48u8],
{
    lemma_digits_first(16, v as nat);
}

} // verus!
