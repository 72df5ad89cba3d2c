//! Lexer scenarios: literals, escapes, positions.
use js::lexer::Lexer;
use js::token::{LexErrorKind, NumOp, Token, TokenData};

fn lex(src: &[u8]) -> Vec<Token> {
    Lexer::lex_str(src.to_vec()).expect("lexing should succeed")
}

#[test]
fn string_with_escapes() {
    // "ab\n\x41" lexes to one string token holding a, b, newline, A
    let toks = lex(b"\"ab\\n\\x41\"");
    assert_eq!(toks.len(), 1);
    match &toks[0].data {
        TokenData::TString(s) => assert_eq!(*s, vec![97u8, 98, 0x0a, 65]),
        other => panic!("expected a string token, got {:?}", other),
    }
}

#[test]
fn three_radixes_and_plus() {
    // 0xFF + 010 + 9 lexes to numbers 255, 8, 9 around two pluses
    let toks = lex(b"0xFF + 010 + 9");
    assert_eq!(toks.len(), 5);
    let want = [255.0f64, 8.0, 9.0];
    let mut nums = 0;
    for t in &toks {
        match &t.data {
            TokenData::TNumber(b) => {
                assert_eq!(*b, want[nums].to_bits());
                nums += 1;
            },
            TokenData::TNumOp(NumOp::OpAdd) => {},
            other => panic!("unexpected token {:?}", other),
        }
    }
    assert_eq!(nums, 3);
}

#[test]
fn control_escapes_round_trip() {
    // each named escape becomes its control byte inside a string literal
    for (esc, ctrl) in [
        (b'n', 10u8),
        (b'r', 13),
        (b't', 9),
        (b'b', 8),
        (b'f', 12),
        (b'0', 0),
    ] {
        let src = vec![b'"', b'\\', esc, b'"'];
        let toks = Lexer::lex_str(src).expect("escape should lex");
        assert_eq!(toks.len(), 1);
        match &toks[0].data {
            TokenData::TString(s) => assert_eq!(*s, vec![ctrl]),
            other => panic!("expected a string token, got {:?}", other),
        }
    }
}

#[test]
fn unicode_escape_encodes_utf8() {
    let toks = lex(b"'\\u00e9'");
    assert_eq!(toks.len(), 1);
    match &toks[0].data {
        TokenData::TString(s) => assert_eq!(*s, vec![0xc3u8, 0xa9]),
        other => panic!("expected a string token, got {:?}", other),
    }
}

#[test]
fn surrogate_escape_is_fatal() {
    let err = Lexer::lex_str(b"'\\ud800'".to_vec()).unwrap_err();
    assert_eq!(err.kind, LexErrorKind::BadScalar);
}

#[test]
fn bad_escape_is_fatal() {
    let err = Lexer::lex_str(b"'\\q'".to_vec()).unwrap_err();
    assert_eq!(err.kind, LexErrorKind::BadEscape);
    assert_eq!(err.line, 1);
}

#[test]
fn empty_hex_literal_is_fatal() {
    let err = Lexer::lex_str(b"0x;".to_vec()).unwrap_err();
    assert_eq!(err.kind, LexErrorKind::BadNumber);
}

#[test]
fn comments_become_tokens() {
    let toks = lex(b"a // note\nb /* wide */ c");
    let kinds: Vec<&TokenData> = toks.iter().map(|t| &t.data).collect();
    assert_eq!(toks.len(), 5);
    match (&kinds[0], &kinds[1], &kinds[2], &kinds[3], &kinds[4]) {
        (
            TokenData::TIdent(a),
            TokenData::TComment(c1),
            TokenData::TIdent(b),
            TokenData::TComment(c2),
            TokenData::TIdent(c),
        ) => {
            assert_eq!(*a, b"a".to_vec());
            assert_eq!(*c1, b" note".to_vec());
            assert_eq!(*b, b"b".to_vec());
            assert_eq!(*c2, b" wide ".to_vec());
            assert_eq!(*c, b"c".to_vec());
        },
        other => panic!("unexpected shape {:?}", other),
    }
}

#[test]
fn lines_start_at_one_and_advance() {
    let toks = lex(b"a\nbb");
    assert_eq!(toks.len(), 2);
    assert_eq!(toks[0].line, 1);
    assert_eq!(toks[1].line, 2);
    assert!(toks[0].column >= 1);
}

#[test]
fn operators_with_lookahead() {
    let toks = lex(b"a == b => c <= d && e");
    let mut ops = Vec::new();
    for t in &toks {
        match &t.data {
            TokenData::TCompOp(_) | TokenData::TArrow | TokenData::TLogOp(_) => {
                ops.push(format!("{:?}", t.data))
            },
            _ => {},
        }
    }
    assert_eq!(ops.len(), 4);
}

#[test]
fn decimal_fraction_literal() {
    let toks = lex(b"1.5;");
    match &toks[0].data {
        TokenData::TNumber(b) => assert_eq!(*b, 1.5f64.to_bits()),
        other => panic!("expected a number, got {:?}", other),
    }
}

#[test]
fn octal_promotes_on_nine() {
    // 09 starts octal but the 9 promotes it to decimal
    let toks = lex(b"09;");
    match &toks[0].data {
        TokenData::TNumber(b) => assert_eq!(*b, 9.0f64.to_bits()),
        other => panic!("expected a number, got {:?}", other),
    }
}
