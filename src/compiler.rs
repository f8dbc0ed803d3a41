//! The format-string language and its compiler.
//!
//! Literal text stands for itself, `{{` and `}}` stand for single braces, and
//! ten verbs consume one argument each: `{:d}` signed, `{:u}` unsigned,
//! `{:x}` hexadecimal, `{:e}` double, `{:p}` pointer, `{:cs}` C string,
//! `{:rs}` string, `{:rb}` bytes, `{:cc}` byte character, `{:rc}` character.
use vstd::prelude::*;
use vstd::string::StringSliceAdditionalSpecFns;

verus! {

/// What a verb renders, and so which argument it consumes.
#[derive(Clone, Copy, Debug, PartialEq, Eq, Structural)]
pub enum Verb {
    Signed,
    Unsigned,
    Hex,
    Double,
    Pointer,
    CStr,
    Str,
    Bytes,
    CChar,
    Char,
}

/// One piece of a compiled format: literal bytes, or a verb.
#[derive(Debug, PartialEq, Eq)]
pub enum Piece {
    Literal(Vec<u8>),
    Verb(Verb),
}

/// A piece as a mathematical value.
pub enum PieceView {
    Literal(Seq<u8>),
    Verb(Verb),
}

impl View for Piece {
    type V = PieceView;

    open spec fn view(&self) -> PieceView {
        match self {
            Piece::Literal(b) => PieceView::Literal(b@),
            Piece::Verb(v) => PieceView::Verb(*v),
        }
    }
}

impl Piece {
    pub fn is_literal(&self) -> (r: bool)
        ensures
            r == (self@ is Literal),
    {
        match self {
            Piece::Literal(_) => true,
            Piece::Verb(_) => false,
        }
    }
}

/// Why a format string was refused.
#[derive(Clone, Copy, Debug, PartialEq, Eq, Structural)]
pub enum FormatError {
    /// A `{` that starts neither a verb nor an escaped brace.
    InvalidVerb,
    /// A `}` that is not part of `}}`.
    UnmatchedBrace,
    /// The format has `expected` verbs but `actual` arguments were given.
    ArityMismatch { expected: usize, actual: usize },
}

/// The text of a verb after its opening brace.
pub open spec fn token(v: Verb) -> Seq<u8> {
    match v {
        Verb::Signed => seq![58u8, 100u8, 125u8],  // :d}
        Verb::Unsigned => seq![58u8, 117u8, 125u8],  // :u}
        Verb::Hex => seq![58u8, 120u8, 125u8],  // :x}
        Verb::Double => seq![58u8, 101u8, 125u8],  // :e}
        Verb::Pointer => seq![58u8, 112u8, 125u8],  // :p}
        Verb::CStr => seq![58u8, 99u8, 115u8, 125u8],  // :cs}
        Verb::Str => seq![58u8, 114u8, 115u8, 125u8],  // :rs}
        Verb::Bytes => seq![58u8, 114u8, 98u8, 125u8],  // :rb}
        Verb::CChar => seq![58u8, 99u8, 99u8, 125u8],  // :cc}
        Verb::Char => seq![58u8, 114u8, 99u8, 125u8],  // :rc}
    }
}

/// `s` holds `t` starting at index `i`.
pub open spec fn starts_with_at(s: Seq<u8>, i: int, t: Seq<u8>) -> bool {
    0 <= i && i + t.len() <= s.len() && s.subrange(i, i + t.len()) =~= t
}

/// The verb whose token starts at index `i` of `s`, if any.
pub open spec fn verb_at(s: Seq<u8>, i: int) -> Option<Verb> {
    if starts_with_at(s, i, token(Verb::Signed)) {
        Some(Verb::Signed)
    } else if starts_with_at(s, i, token(Verb::Unsigned)) {
        Some(Verb::Unsigned)
    } else if starts_with_at(s, i, token(Verb::Hex)) {
        Some(Verb::Hex)
    } else if starts_with_at(s, i, token(Verb::Double)) {
        Some(Verb::Double)
    } else if starts_with_at(s, i, token(Verb::Pointer)) {
        Some(Verb::Pointer)
    } else if starts_with_at(s, i, token(Verb::CStr)) {
        Some(Verb::CStr)
    } else if starts_with_at(s, i, token(Verb::Str)) {
        Some(Verb::Str)
    } else if starts_with_at(s, i, token(Verb::Bytes)) {
        Some(Verb::Bytes)
    } else if starts_with_at(s, i, token(Verb::CChar)) {
        Some(Verb::CChar)
    } else if starts_with_at(s, i, token(Verb::Char)) {
        Some(Verb::Char)
    } else {
        None
    }
}

/// The verb starting at index `i` of `s`, if any.
fn find_verb(s: &[u8], i: usize) -> (r: Option<Verb>)
    ensures
        r == verb_at(s@, i as int),
{
    if i <= s.len() && s.len() - i >= 3 && s[i] == 58 {
        let c = s[i + 1];
        if s[i + 2] == 125 {
            let r = if c == 100 {
                Some(Verb::Signed)
            } else if c == 117 {
                Some(Verb::Unsigned)
            } else if c == 120 {
                Some(Verb::Hex)
            } else if c == 101 {
                Some(Verb::Double)
            } else if c == 112 {
                Some(Verb::Pointer)
            } else {
                None
            };
            assert(r == verb_at(s@, i as int));
            return r;
        }
        if s.len() - i >= 4 && s[i + 3] == 125 {
            let d = s[i + 2];
            let r = if c == 99 && d == 115 {
                Some(Verb::CStr)
            } else if c == 114 && d == 115 {
                Some(Verb::Str)
            } else if c == 114 && d == 98 {
                Some(Verb::Bytes)
            } else if c == 99 && d == 99 {
                Some(Verb::CChar)
            } else if c == 114 && d == 99 {
                Some(Verb::Char)
            } else {
                None
            };
            assert(r == verb_at(s@, i as int));
            return r;
        }
    }
    assert(verb_at(s@, i as int) is None);
    None
}

/// Length of a verb's token.
fn token_len(v: Verb) -> (n: usize)
    ensures
        n == token(v).len(),
{
    match v {
        Verb::Signed | Verb::Unsigned | Verb::Hex | Verb::Double | Verb::Pointer => 3,
        _ => 4,
    }
}

/// Index of the first `{` at or after `i`, or the length of `s` when there is none.
pub open spec fn next_brace(s: Seq<u8>, i: int) -> int
    decreases s.len() - i,
{
    if i >= s.len() {
        s.len() as int
    } else if s[i] == 123 {
        i
    } else {
        next_brace(s, i + 1)
    }
}

proof fn lemma_next_brace(s: Seq<u8>, i: int)
    requires
        0 <= i <= s.len(),
    ensures
        i <= next_brace(s, i) <= s.len(),
        next_brace(s, i) < s.len() ==> s[next_brace(s, i)] == 123,
    decreases s.len() - i,
{
    if i < s.len() && s[i] != 123 {
        lemma_next_brace(s, i + 1);
    }
}

fn find_brace(s: &[u8], i: usize) -> (j: usize)
    requires
        i <= s.len(),
    ensures
        j == next_brace(s@, i as int),
{
    let mut j = i;
    while j < s.len() && s[j] != 123
        invariant
            i <= j <= s.len(),
            next_brace(s@, i as int) == next_brace(s@, j as int),
        decreases s.len() - j,
    {
        j += 1;
    }
    j
}

/// A literal span with `}}` read as `}`; `None` when it holds a `}` that is not doubled.
pub open spec fn unescape(s: Seq<u8>) -> Option<Seq<u8>>
    decreases s.len(),
{
    if s.len() == 0 {
        Some(Seq::empty())
    } else if s[0] == 125 {
        if s.len() >= 2 && s[1] == 125 {
            match unescape(s.skip(2)) {
                Some(r) => Some(seq![125u8] + r),
                None => None,
            }
        } else {
            None
        }
    } else {
        match unescape(s.skip(1)) {
            Some(r) => Some(seq![s[0]] + r),
            None => None,
        }
    }
}

/// Appends the unescaped text of `s[lo..hi]` to `out`; false, with `out`
/// left in an unspecified state, when the span holds an unmatched `}`.
fn unescape_into(s: &[u8], lo: usize, hi: usize, out: &mut Vec<u8>) -> (ok: bool)
    requires
        lo <= hi <= s.len(),
    ensures
        ok == (unescape(s@.subrange(lo as int, hi as int)) is Some),
        ok ==> final(out)@ == old(out)@ + unescape(s@.subrange(lo as int, hi as int))->Some_0,
{
    let ghost whole = s@.subrange(lo as int, hi as int);
    let mut k = lo;
    while k < hi
        invariant
            lo <= k <= hi <= s.len(),
            whole == s@.subrange(lo as int, hi as int),
            out@.len() >= old(out)@.len(),
            out@.subrange(0, old(out)@.len() as int) == old(out)@,
            unescape(s@.subrange(k as int, hi as int)) is Some ==> unescape(whole) == Some(
                out@.subrange(old(out)@.len() as int, out@.len() as int) + unescape(
                    s@.subrange(k as int, hi as int),
                )->Some_0,
            ),
            unescape(s@.subrange(k as int, hi as int)) is None ==> unescape(whole) is None,
        decreases hi - k,
    {
        let ghost rest = s@.subrange(k as int, hi as int);
        let ghost added = out@.subrange(old(out)@.len() as int, out@.len() as int);
        let b = s[k];
        if b == 125 {
            if k + 1 < hi && s[k + 1] == 125 {
                out.push(125);
                k += 2;
                assert(rest.skip(2) =~= s@.subrange(k as int, hi as int));
            } else {
                assert(unescape(rest) is None);
                return false;
            }
        } else {
            out.push(b);
            k += 1;
            assert(rest.skip(1) =~= s@.subrange(k as int, hi as int));
        }
        assert(out@.subrange(0, old(out)@.len() as int) =~= old(out)@);
        assert(out@.subrange(old(out)@.len() as int, out@.len() as int) =~= added.push(
            rest[0],
        ));
        proof {
            if unescape(s@.subrange(k as int, hi as int)) is Some {
                let r = unescape(s@.subrange(k as int, hi as int))->Some_0;
                assert(added.push(rest[0]) + r =~= added + (seq![rest[0]] + r));
            }
        }
    }
    assert(s@.subrange(k as int, hi as int) =~= Seq::<u8>::empty());
    assert(out@ =~= old(out)@ + out@.subrange(old(out)@.len() as int, out@.len() as int));
    true
}

/// The pending literal as a piece, or nothing when it is empty.
pub open spec fn flush(pending: Seq<u8>) -> Seq<PieceView> {
    if pending.len() == 0 {
        Seq::empty()
    } else {
        seq![PieceView::Literal(pending)]
    }
}

/// The pieces of `s` from index `i` on, with `pending` literal text carried in
/// front of them. Text up to the next `{` is unescaped; the `{` then starts a
/// verb, which ends the literal, or an escaped brace, which joins it.
pub open spec fn parse_from(s: Seq<u8>, i: int, pending: Seq<u8>) -> Result<
    Seq<PieceView>,
    FormatError,
>
    decreases s.len() - i,
    via parse_from_decreases
{
    if i < 0 || i > s.len() {
        Err(FormatError::InvalidVerb)
    } else {
        let j = next_brace(s, i);
        let head = unescape(s.subrange(i, j));
        if j >= s.len() {
            match head {
                Some(u) => Ok(flush(pending + u)),
                None => Err(FormatError::UnmatchedBrace),
            }
        } else {
            match verb_at(s, j + 1) {
                Some(v) => match head {
                    Some(u) => match parse_from(s, j + 1 + token(v).len(), Seq::empty()) {
                        Ok(rest) => Ok(flush(pending + u) + seq![PieceView::Verb(v)] + rest),
                        Err(e) => Err(e),
                    },
                    None => Err(FormatError::UnmatchedBrace),
                },
                None => if j + 1 < s.len() && s[j + 1] == 123 {
                    match head {
                        Some(u) => parse_from(s, j + 2, pending + u + seq![123u8]),
                        None => Err(FormatError::UnmatchedBrace),
                    }
                } else {
                    Err(FormatError::InvalidVerb)
                },
            }
        }
    }
}

#[via_fn]
proof fn parse_from_decreases(s: Seq<u8>, i: int, pending: Seq<u8>) {
    if 0 <= i <= s.len() {
        lemma_next_brace(s, i);
    }
}

/// The pieces of a whole format string.
pub open spec fn parse_spec(s: Seq<u8>) -> Result<Seq<PieceView>, FormatError> {
    parse_from(s, 0, Seq::empty())
}

/// The views of a run of pieces.
pub open spec fn pieces_view(p: Seq<Piece>) -> Seq<PieceView> {
    p.map_values(|x: Piece| x@)
}

/// `done` in front of the pieces of `r`, or the error of `r`.
pub open spec fn after(done: Seq<PieceView>, r: Result<Seq<PieceView>, FormatError>) -> Result<
    Seq<PieceView>,
    FormatError,
> {
    match r {
        Ok(rest) => Ok(done + rest),
        Err(e) => Err(e),
    }
}

/// A compiled format, or its error, as a mathematical value.
pub open spec fn result_view(r: &Result<Vec<Piece>, FormatError>) -> Result<
    Seq<PieceView>,
    FormatError,
> {
    match r {
        Ok(p) => Ok(pieces_view(p@)),
        Err(e) => Err(*e),
    }
}

/// Moves a non-empty pending literal onto the pieces.
fn flush_into(pieces: &mut Vec<Piece>, pending: Vec<u8>)
    ensures
        pieces_view(final(pieces)@) == pieces_view(old(pieces)@) + flush(pending@),
{
    if pending.len() > 0 {
        pieces.push(Piece::Literal(pending));
    }
    assert(pieces_view(pieces@) =~= pieces_view(old(pieces)@) + flush(pending@));
}

/// Splits a format string into literal and verb pieces, in order. Literal
/// pieces are never empty, and two literal pieces never stand side by side.
pub fn parse(s: &[u8]) -> (r: Result<Vec<Piece>, FormatError>)
    ensures
        result_view(&r) == parse_spec(s@),
{
    let mut pieces: Vec<Piece> = Vec::new();
    let mut pending: Vec<u8> = Vec::new();
    let mut i: usize = 0;
    assert(after(Seq::empty(), parse_spec(s@)) =~= parse_spec(s@)) by {
        match parse_spec(s@) {
            Ok(p) => assert(Seq::<PieceView>::empty() + p =~= p),
            Err(_) => {},
        }
    }
    loop
        invariant
            i <= s.len(),
            parse_spec(s@) == after(
                pieces_view(pieces@),
                parse_from(s@, i as int, pending@),
            ),
        decreases s.len() - i,
    {
        proof {
            lemma_next_brace(s@, i as int);
        }
        let j = find_brace(s, i);
        if j == s.len() {
            if !unescape_into(s, i, j, &mut pending) {
                return Err(FormatError::UnmatchedBrace);
            }
            flush_into(&mut pieces, pending);
            return Ok(pieces);
        }
        match find_verb(s, j + 1) {
            Some(v) => {
                if !unescape_into(s, i, j, &mut pending) {
                    return Err(FormatError::UnmatchedBrace);
                }
                let ghost before = pieces_view(pieces@);
                let ghost lit = pending@;
                flush_into(&mut pieces, pending);
                pending = Vec::new();
                pieces.push(Piece::Verb(v));
                let n = token_len(v);
                proof {
                    assert(pieces_view(pieces@) =~= before + flush(lit) + seq![PieceView::Verb(v)]);
                    match parse_from(s@, (j + 1 + n) as int, Seq::empty()) {
                        Ok(rest) => {
                            assert(before + (flush(lit) + seq![PieceView::Verb(v)] + rest) =~= before
                                + flush(lit) + seq![PieceView::Verb(v)] + rest);
                        },
                        Err(_) => {},
                    }
                    assert(pending@ =~= Seq::<u8>::empty());
                }
                i = j + 1 + n;
            },
            None => {
                if j + 1 < s.len() && s[j + 1] == 123 {
                    let ghost carried = pending@;
                    if !unescape_into(s, i, j, &mut pending) {
                        return Err(FormatError::UnmatchedBrace);
                    }
                    pending.push(123);
                    assert(pending@ =~= carried + unescape(s@.subrange(i as int, j as int))->Some_0
                        + seq![123u8]);
                    i = j + 2;
                } else {
                    return Err(FormatError::InvalidVerb);
                }
            },
        }
    }
}

/// Number of verb pieces.
pub open spec fn count_verbs(p: Seq<PieceView>) -> nat
    decreases p.len(),
{
    if p.len() == 0 {
        0
    } else {
        count_verbs(p.drop_last()) + if p.last() is Verb {
            1nat
        } else {
            0nat
        }
    }
}

/// What compiling `s` for `arg_count` arguments gives: its pieces when it
/// parses and has exactly `arg_count` verbs.
pub open spec fn compile_spec(s: Seq<u8>, arg_count: usize) -> Result<Seq<PieceView>, FormatError> {
    match parse_spec(s) {
        Err(e) => Err(e),
        Ok(p) => if count_verbs(p) == arg_count {
            Ok(p)
        } else {
            Err(FormatError::ArityMismatch { expected: count_verbs(p) as usize, actual: arg_count })
        },
    }
}

/// Number of verb pieces in `pieces`.
pub fn verb_count(pieces: &Vec<Piece>) -> (n: usize)
    ensures
        n == count_verbs(pieces_view(pieces@)),
{
    let mut n: usize = 0;
    let mut k: usize = 0;
    while k < pieces.len()
        invariant
            k <= pieces.len(),
            n <= k,
            n == count_verbs(pieces_view(pieces@.subrange(0, k as int))),
        decreases pieces.len() - k,
    {
        assert(pieces_view(pieces@.subrange(0, k + 1)).drop_last() =~= pieces_view(
            pieces@.subrange(0, k as int),
        ));
        if !pieces[k].is_literal() {
            n += 1;
        }
        k += 1;
    }
    assert(pieces@.subrange(0, k as int) =~= pieces@);
    n
}

proof fn lemma_count_verbs_concat(a: Seq<PieceView>, b: Seq<PieceView>)
    ensures
        count_verbs(a + b) == count_verbs(a) + count_verbs(b),
    decreases b.len(),
{
    if b.len() == 0 {
        assert(a + b =~= a);
    } else {
        assert((a + b).drop_last() =~= a + b.drop_last());
        lemma_count_verbs_concat(a, b.drop_last());
    }
}

proof fn lemma_parse_count_bound(s: Seq<u8>, i: int, pending: Seq<u8>)
    requires
        parse_from(s, i, pending) is Ok,
    ensures
        count_verbs(parse_from(s, i, pending)->Ok_0) <= s.len() - i,
    decreases s.len() - i,
{
    lemma_next_brace(s, i);
    let j = next_brace(s, i);
    let head = unescape(s.subrange(i, j));
    let lit = flush(pending + head->Some_0);
    assert(count_verbs(lit) == 0) by {
        assert(count_verbs(Seq::<PieceView>::empty()) == 0);
        if lit.len() == 1 {
            assert(lit.drop_last() =~= Seq::<PieceView>::empty());
            assert(lit.last() is Literal);
        }
    }
    if j < s.len() {
        match verb_at(s, j + 1) {
            Some(v) => {
                let k = j + 1 + token(v).len();
                lemma_parse_count_bound(s, k, Seq::empty());
                let rest = parse_from(s, k, Seq::empty())->Ok_0;
                let one = seq![PieceView::Verb(v)];
                assert(count_verbs(one) == 1) by {
                    assert(one.drop_last() =~= Seq::<PieceView>::empty());
                    assert(count_verbs(Seq::<PieceView>::empty()) == 0);
                    assert(one.last() is Verb);
                }
                lemma_count_verbs_concat(lit, one);
                lemma_count_verbs_concat(lit + one, rest);
            },
            None => {
                lemma_parse_count_bound(s, j + 2, pending + head->Some_0 + seq![123u8]);
            },
        }
    }
}

/// A format string that parses compiles exactly when the number of arguments
/// equals its number of verbs; otherwise the error reports the number of verbs
/// and the number of arguments.
pub proof fn lemma_compile_arity(s: Seq<u8>, arg_count: usize)
    requires
        parse_spec(s) is Ok,
        s.len() <= usize::MAX,
    ensures
        compile_spec(s, arg_count) is Ok <==> count_verbs(parse_spec(s)->Ok_0) == arg_count,
        compile_spec(s, arg_count) is Ok ==> count_verbs(compile_spec(s, arg_count)->Ok_0)
            == arg_count,
        compile_spec(s, arg_count) is Err ==> compile_spec(s, arg_count) == Err::<
            Seq<PieceView>,
            FormatError,
        >(
            FormatError::ArityMismatch {
                expected: count_verbs(parse_spec(s)->Ok_0) as usize,
                actual: arg_count,
            },
        ),
        count_verbs(parse_spec(s)->Ok_0) <= usize::MAX,
{
    lemma_parse_count_bound(s, 0, Seq::empty());
}

/// The C `printf` conversion that stands for a verb.
pub open spec fn c_conversion(v: Verb) -> Seq<u8> {
    match v {
        Verb::CStr => seq![37u8, 115u8],  // %s
        Verb::Pointer => seq![37u8, 112u8],  // %p
        Verb::Str | Verb::Bytes | Verb::Char => seq![37u8, 46u8, 42u8, 115u8],  // %.*s
        Verb::Signed => seq![37u8, 108u8, 108u8, 100u8],  // %lld
        Verb::Unsigned => seq![37u8, 108u8, 108u8, 117u8],  // %llu
        Verb::Hex => seq![37u8, 108u8, 108u8, 120u8],  // %llx
        Verb::CChar => seq![37u8, 99u8],  // %c
        Verb::Double => seq![37u8, 101u8],  // %e
    }
}

/// The pieces as one C `printf` format: literal text as it is, each verb as
/// its conversion.
pub open spec fn c_format(p: Seq<PieceView>) -> Seq<u8>
    decreases p.len(),
{
    if p.len() == 0 {
        Seq::empty()
    } else {
        c_format(p.drop_last()) + match p.last() {
            PieceView::Literal(b) => b,
            PieceView::Verb(v) => c_conversion(v),
        }
    }
}

fn push_conversion(out: &mut Vec<u8>, v: Verb)
    ensures
        final(out)@ == old(out)@ + c_conversion(v),
{
    out.push(37);
    match v {
        Verb::CStr => out.push(115),
        Verb::Pointer => out.push(112),
        Verb::Str | Verb::Bytes | Verb::Char => {
            out.push(46);
            out.push(42);
            out.push(115);
        },
        Verb::Signed | Verb::Unsigned | Verb::Hex => {
            out.push(108);
            out.push(108);
            out.push(
                match v {
                    Verb::Signed => 100,
                    Verb::Unsigned => 117,
                    _ => 120,
                },
            );
        },
        Verb::CChar => out.push(99),
        Verb::Double => out.push(101),
    }
    assert(out@ =~= old(out)@ + c_conversion(v));
}

/// The C `printf` format that renders the same output as `pieces`.
pub fn gen_literal(pieces: &Vec<Piece>) -> (r: Vec<u8>)
    ensures
        r@ == c_format(pieces_view(pieces@)),
{
    let ghost p = pieces_view(pieces@);
    let mut out: Vec<u8> = Vec::new();
    let mut k: usize = 0;
    while k < pieces.len()
        invariant
            k <= pieces.len(),
            p == pieces_view(pieces@),
            out@ == c_format(p.subrange(0, k as int)),
        decreases pieces.len() - k,
    {
        assert(p.subrange(0, k + 1).drop_last() =~= p.subrange(0, k as int));
        match &pieces[k] {
            Piece::Literal(b) => {
                let mut i: usize = 0;
                let ghost start = out@;
                while i < b.len()
                    invariant
                        i <= b.len(),
                        out@ == start + b@.subrange(0, i as int),
                    decreases b.len() - i,
                {
                    out.push(b[i]);
                    i += 1;
                    assert(out@ =~= start + b@.subrange(0, i as int));
                }
                assert(b@.subrange(0, i as int) =~= b@);
            },
            Piece::Verb(v) => push_conversion(&mut out, *v),
        }
        k += 1;
    }
    assert(p.subrange(0, k as int) =~= p);
    out
}

/// Compiles a format string for `arg_count` arguments.
pub fn compile(format: &str, arg_count: usize) -> (r: Result<Vec<Piece>, FormatError>)
    ensures
        result_view(&r) == compile_spec(format.spec_bytes(), arg_count),
{
    let pieces = parse(format.as_bytes())?;
    let n = verb_count(&pieces);
    if n != arg_count {
        return Err(FormatError::ArityMismatch { expected: n, actual: arg_count });
    }
    Ok(pieces)
}

} // verus!
