//! The dispatcher: walks a compiled format with its arguments and hands every
//! byte run to a sink, in order.
use crate::digits;
use crate::utf8::encode_utf8;
use vstd::prelude::*;
use crate::double;
use crate::compiler::{self, Piece, PieceView, Verb};
use crate::sink::{self, Formatter};
use vstd::utf8;

verus! {

/// One argument, in the shape its verb consumes.
pub enum Arg<'a> {
    /// For `{:d}`.
    Int(i64),
    /// For `{:u}` and `{:x}`.
    Uint(u64),
    /// For `{:e}`: the IEEE-754 bit pattern of a double.
    F64Bits(u64),
    /// For `{:p}`: an address.
    Addr(usize),
    /// For `{:rc}`.
    Char(char),
    /// For `{:cc}`.
    Byte(u8),
    /// For `{:rs}` and `{:rb}`.
    Slice(&'a [u8]),
    /// For `{:cs}`: `None` is the null pointer; otherwise the bytes from the
    /// pointer on, through its terminating zero byte.
    CStr(Option<&'a [u8]>),
}

/// `a` has the shape that verb `v` consumes.
pub open spec fn fits(v: Verb, a: Arg) -> bool {
    match (v, a) {
        (Verb::Signed, Arg::Int(_)) => true,
        (Verb::Unsigned, Arg::Uint(_)) => true,
        (Verb::Hex, Arg::Uint(_)) => true,
        (Verb::Double, Arg::F64Bits(_)) => true,
        (Verb::Pointer, Arg::Addr(_)) => true,
        (Verb::Char, Arg::Char(_)) => true,
        (Verb::CChar, Arg::Byte(_)) => true,
        (Verb::Str, Arg::Slice(_)) => true,
        (Verb::Bytes, Arg::Slice(_)) => true,
        (Verb::CStr, Arg::CStr(_)) => true,
        _ => false,
    }
}

/// The bytes that verb `v` renders for argument `a`.
pub open spec fn verb_text(v: Verb, a: Arg) -> Seq<u8> {
    match a {
        Arg::Int(x) => digits::signed_digits(x as int),
        Arg::Uint(x) => if v == Verb::Hex {
            digits::hex_digits(x as nat)
        } else {
            digits::dec_digits(x as nat)
        },
        Arg::F64Bits(bits) => double::double_text(bits),
        Arg::Addr(p) => digits::pointer_text(p as nat),
        Arg::Char(c) => utf8::encode_scalar(c as u32),
        Arg::Byte(b) => seq![b],
        Arg::Slice(s) => s@,
        Arg::CStr(p) => sink::cstr_text(
            match p {
                Some(s) => Some(s@),
                None => None,
            },
        ),
    }
}

/// One argument per verb, in order, each of the shape its verb consumes.
pub open spec fn args_fit(p: Seq<PieceView>, args: Seq<Arg>) -> bool {
    &&& args.len() == compiler::count_verbs(p)
    &&& forall|k: int|
        0 <= k < p.len() && (#[trigger] p[k]) is Verb ==> fits(
            p[k]->Verb_0,
            args[compiler::count_verbs(p.subrange(0, k)) as int],
        )
}

/// The output of a compiled format for the given arguments: literal pieces as
/// they are, each verb rendered from the next argument.
pub open spec fn rendered(p: Seq<PieceView>, args: Seq<Arg>) -> Seq<u8>
    decreases p.len(),
{
    if p.len() == 0 {
        Seq::empty()
    } else {
        rendered(p.drop_last(), args) + match p.last() {
            PieceView::Literal(b) => b,
            PieceView::Verb(v) => verb_text(v, args[compiler::count_verbs(p.drop_last()) as int]),
        }
    }
}

proof fn lemma_count_prefix(p: Seq<PieceView>, k: int)
    requires
        0 <= k <= p.len(),
    ensures
        compiler::count_verbs(p.subrange(0, k)) <= compiler::count_verbs(p),
    decreases p.len() - k,
{
    if k < p.len() {
        lemma_count_prefix(p, k + 1);
        assert(p.subrange(0, k + 1).drop_last() =~= p.subrange(0, k));
    } else {
        assert(p.subrange(0, k) =~= p);
    }
}

/// Writes one verb's argument to the sink.
fn render_verb<F: Formatter>(v: Verb, a: &Arg, sink: &mut F) -> (n: usize)
    requires
        old(sink).inv(),
        fits(v, *a),
    ensures
        final(sink).inv(),
        final(sink).emitted() == old(sink).emitted() + verb_text(v, *a),
        n == verb_text(v, *a).len(),
{
    match a {
        Arg::Int(x) => sink.write_i64(*x),
        Arg::Uint(x) => {
            if v == Verb::Hex {
                sink.write_hex(*x)
            } else {
                sink.write_u64(*x)
            }
        },
        Arg::F64Bits(bits) => sink.write_f64_bits(*bits),
        Arg::Addr(p) => sink.write_ptr(*p),
        Arg::Char(c) => {
            let mut scratch = [0u8; 4];
            let bytes = encode_utf8(*c, &mut scratch);
            sink.write_buf(bytes)
        },
        Arg::Byte(b) => {
            let one = [*b];
            assert(one@ =~= seq![*b]);
            sink.write_buf(&one[0..1])
        },
        Arg::Slice(s) => sink.write_buf(s),
        Arg::CStr(p) => sink.write_cstr(*p),
    }
}

/// `n`, or `usize::MAX` when `n` is larger.
pub open spec fn capped(n: nat) -> usize {
    if n <= usize::MAX {
        n as usize
    } else {
        usize::MAX
    }
}

/// Whether `args` holds one argument per verb of `program`, in order, each of
/// the shape its verb consumes.
pub fn args_match(program: &Vec<Piece>, args: &[Arg]) -> (r: bool)
    ensures
        r == args_fit(compiler::pieces_view(program@), args@),
{
    let ghost p = compiler::pieces_view(program@);
    let mut next: usize = 0;
    let mut k: usize = 0;
    while k < program.len()
        invariant
            k <= program.len(),
            p == compiler::pieces_view(program@),
            next == compiler::count_verbs(p.subrange(0, k as int)),
            next <= k,
            forall|i: int|
                0 <= i < k && (#[trigger] p[i]) is Verb ==> compiler::count_verbs(p.subrange(0, i)) < args.len()
                    && fits(p[i]->Verb_0, args@[compiler::count_verbs(p.subrange(0, i)) as int]),
        decreases program.len() - k,
    {
        assert(p.subrange(0, k + 1).drop_last() =~= p.subrange(0, k as int));
        if let Piece::Verb(v) = &program[k] {
            if next >= args.len() || !fits_exec(*v, &args[next]) {
                proof {
                    if next >= args.len() {
                        lemma_count_prefix(p, k + 1);
                    }
                }
                return false;
            }
            next += 1;
        }
        k += 1;
    }
    assert(p.subrange(0, k as int) =~= p);
    next == args.len()
}

fn fits_exec(v: Verb, a: &Arg) -> (r: bool)
    ensures
        r == fits(v, *a),
{
    match (v, a) {
        (Verb::Signed, Arg::Int(_)) => true,
        (Verb::Unsigned, Arg::Uint(_)) => true,
        (Verb::Hex, Arg::Uint(_)) => true,
        (Verb::Double, Arg::F64Bits(_)) => true,
        (Verb::Pointer, Arg::Addr(_)) => true,
        (Verb::Char, Arg::Char(_)) => true,
        (Verb::CChar, Arg::Byte(_)) => true,
        (Verb::Str, Arg::Slice(_)) => true,
        (Verb::Bytes, Arg::Slice(_)) => true,
        (Verb::CStr, Arg::CStr(_)) => true,
        _ => false,
    }
}

/// Writes the program's pieces to `sink` in order, each verb rendered from the
/// next argument, and returns the total of what the sink reported: the length
/// of the whole output (`usize::MAX` should it be longer).
pub fn render<F: Formatter>(program: &Vec<Piece>, args: &[Arg], sink: &mut F) -> (n: usize)
    requires
        old(sink).inv(),
        args_fit(compiler::pieces_view(program@), args@),
    ensures
        final(sink).inv(),
        final(sink).emitted() == old(sink).emitted() + rendered(compiler::pieces_view(program@), args@),
        n == capped(rendered(compiler::pieces_view(program@), args@).len()),
{
    let ghost p = compiler::pieces_view(program@);
    let mut total: usize = 0;
    let mut next: usize = 0;
    let mut k: usize = 0;
    while k < program.len()
        invariant
            k <= program.len(),
            p == compiler::pieces_view(program@),
            args_fit(p, args@),
            next == compiler::count_verbs(p.subrange(0, k as int)),
            sink.inv(),
            sink.emitted() == old(sink).emitted() + rendered(p.subrange(0, k as int), args@),
            total == capped(rendered(p.subrange(0, k as int), args@).len()),
        decreases program.len() - k,
    {
        let ghost before = sink.emitted();
        proof {
            assert(p.subrange(0, k + 1).drop_last() =~= p.subrange(0, k as int));
            lemma_count_prefix(p, k + 1);
        }
        let n = match &program[k] {
            Piece::Literal(b) => sink.write_buf(b.as_slice()),
            Piece::Verb(v) => {
                assert(p[k as int] is Verb);
                let n = render_verb(*v, &args[next], sink);
                next += 1;
                n
            },
        };
        total = total.saturating_add(n);
        k += 1;
        assert(sink.emitted() =~= old(sink).emitted() + rendered(p.subrange(0, k as int), args@));
    }
    assert(p.subrange(0, k as int) =~= p);
    total
}

} // verus!
