use hifmt::compiler::gen_literal;
use hifmt::{compile, parse, FormatError, Piece, Verb};

fn lit(s: &str) -> Piece {
    Piece::Literal(s.as_bytes().to_vec())
}

#[test]
fn escapes_fold_into_one_literal() {
    assert_eq!(compile("a{{b}}c", 0), Ok(vec![lit("a{b}c")]));
    assert_eq!(compile("}}{{", 0), Ok(vec![lit("}{")]));
}

#[test]
fn unmatched_right_brace() {
    assert_eq!(compile("}", 0), Err(FormatError::UnmatchedBrace));
    assert_eq!(compile("ab}c", 0), Err(FormatError::UnmatchedBrace));
    assert_eq!(compile("{:d}}", 1), Err(FormatError::UnmatchedBrace));
    assert_eq!(compile("}}}", 0), Err(FormatError::UnmatchedBrace));
}

#[test]
fn invalid_verb() {
    assert_eq!(compile("{:q}", 1), Err(FormatError::InvalidVerb));
    assert_eq!(compile("{", 0), Err(FormatError::InvalidVerb));
    assert_eq!(compile("x {:d", 1), Err(FormatError::InvalidVerb));
    assert_eq!(compile("{:D}", 1), Err(FormatError::InvalidVerb));
    // the brace is judged before the text in front of it is unescaped
    assert_eq!(compile("}{:q}", 1), Err(FormatError::InvalidVerb));
    assert_eq!(compile("}{{", 0), Err(FormatError::UnmatchedBrace));
}

#[test]
fn arity_mismatch_reports_both_counts() {
    assert_eq!(
        compile("{:d} and {:u}", 1),
        Err(FormatError::ArityMismatch { expected: 2, actual: 1 })
    );
    assert_eq!(
        compile("plain", 3),
        Err(FormatError::ArityMismatch { expected: 0, actual: 3 })
    );
}

#[test]
fn every_verb() {
    let p = compile("{:d}{:u}{:x}{:e}{:p}{:cs}{:rs}{:rb}{:cc}{:rc}", 10).unwrap();
    assert_eq!(
        p,
        vec![
            Piece::Verb(Verb::Signed),
            Piece::Verb(Verb::Unsigned),
            Piece::Verb(Verb::Hex),
            Piece::Verb(Verb::Double),
            Piece::Verb(Verb::Pointer),
            Piece::Verb(Verb::CStr),
            Piece::Verb(Verb::Str),
            Piece::Verb(Verb::Bytes),
            Piece::Verb(Verb::CChar),
            Piece::Verb(Verb::Char),
        ]
    );
}

#[test]
fn literals_between_verbs() {
    let p = compile("x = {:d}, {{y}} = {:x}!", 2).unwrap();
    assert_eq!(
        p,
        vec![
            lit("x = "),
            Piece::Verb(Verb::Signed),
            lit(", {y} = "),
            Piece::Verb(Verb::Hex),
            lit("!"),
        ]
    );
    assert!(p[0].is_literal());
    assert!(!p[1].is_literal());
}

#[test]
fn empty_format() {
    assert_eq!(compile("", 0), Ok(vec![]));
    assert_eq!(parse(b""), Ok(vec![]));
}

#[test]
fn compiling_twice_gives_the_same_program() {
    let f = "a{:rs}b{{{:cc}}}";
    assert_eq!(compile(f, 2), compile(f, 2));
    assert_eq!(
        compile(f, 2).unwrap(),
        vec![lit("a"), Piece::Verb(Verb::Str), lit("b{"), Piece::Verb(Verb::CChar), lit("}")]
    );
}

#[test]
fn non_ascii_literal() {
    assert_eq!(compile("\u{4e2d}{:d}", 1), Ok(vec![lit("\u{4e2d}"), Piece::Verb(Verb::Signed)]));
}

#[test]
fn c_printf_format() {
    let p = compile("d={:d} u={:u} x={:x} e={:e} p={:p} cs={:cs} rs={:rs} rb={:rb} cc={:cc} rc={:rc}\n", 10)
        .unwrap();
    assert_eq!(
        gen_literal(&p),
        b"d=%lld u=%llu x=%llx e=%e p=%p cs=%s rs=%.*s rb=%.*s cc=%c rc=%.*s\n".to_vec()
    );
    assert_eq!(gen_literal(&compile("{{}}", 0).unwrap()), b"{}".to_vec());
}
