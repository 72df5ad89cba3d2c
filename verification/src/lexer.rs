//! The lexer: a single pass over a byte stream, carrying modal state for
//! strings with escapes, line and block comments and the three numeric
//! radixes, with one byte of lookahead for the multi-byte operators.
//!
//! The mathematical model `lex_from` walks the input from a position with
//! the same modal state; `Lexer::lex` is proved to agree with it byte for
//! byte, and `lex_spec` names the whole run from the start state.
use vstd::prelude::*;
use crate::token::{CommentType, LexError, LexErrorKind, NumberType, StringType, Token, TokenData,
    TokenDataV, TokenV, NumOp, BitOp, CompOp, LogOp};
use crate::value::{count_dots, norm_num, num_body_ok};
use crate::dbl::{bits_of_nat53, bits_of_u53, dbl_of_u128, digit_val, digits_val, of_dec_str_bits,
    of_u128_bits, parse_digits};

verus! {

/// The lexer's modal state, mathematically.
pub struct LexSt {
    pub ident: Seq<u8>,
    pub string: Seq<u8>,
    pub comment: Seq<u8>,
    pub num: Seq<u8>,
    pub string_start: Option<StringType>,
    pub comment_kind: Option<CommentType>,
    pub number_kind: Option<NumberType>,
    pub escaped: bool,
    pub line: nat,
    pub column: nat,
}

/// The state a fresh lexer starts in.
pub open spec fn init_st() -> LexSt {
    LexSt {
        ident: Seq::empty(),
        string: Seq::empty(),
        comment: Seq::empty(),
        num: Seq::empty(),
        string_start: None,
        comment_kind: None,
        number_kind: None,
        escaped: false,
        line: 1,
        column: 0,
    }
}

/// The value of a numeric literal buffer under its radix mode, as encoded
/// bits; `None` where the buffer does not parse (which is fatal). Values of
/// 2^96 and above do not parse.
pub open spec fn num_value(buf: Seq<u8>, kind: NumberType) -> Option<u64> {
    if kind is DecimalNumber && count_dots(buf) > 0 {
        if num_body_ok(buf) {
            Some(dbl_of_dec_str_lex(buf))
        } else {
            None
        }
    } else {
        let radix: nat = match kind {
            NumberType::HexadecimalNumber => 16,
            NumberType::OctalNumber => 8,
            NumberType::DecimalNumber => 10,
        };
        if buf.len() == 0 {
            None
        } else {
            match digits_val(buf, radix) {
                Some(v) => if v < 0x20_0000_0000_0000 {
                    Some(bits_of_nat53(v))
                } else if v < 0x1_0000_0000_0000_0000_0000_0000 {
                    Some(dbl_of_u128(v as u128))
                } else {
                    None
                },
                None => None,
            }
        }
    }
}

/// The decimal-fraction case goes to the software float's parser, on the
/// normalized body.
pub open spec fn dbl_of_dec_str_lex(buf: Seq<u8>) -> u64 {
    crate::dbl::dbl_of_dec_str(norm_num(buf))
}

/// Flush the pending identifier and number, in that order, as the original
/// stream reaches a token boundary.
pub open spec fn clear_bufs(st: LexSt, toks: Seq<TokenV>) -> Result<(LexSt, Seq<TokenV>), LexError> {
    let (st1, toks1) = if st.ident.len() > 0 {
        (
            LexSt { ident: Seq::empty(), ..st },
            toks.push(TokenV { data: TokenDataV::TIdent(st.ident), line: st.line, column: st.column }),
        )
    } else {
        (st, toks)
    };
    match st1.number_kind {
        Some(k) => match num_value(st1.num, k) {
            Some(bits) => Ok(
                (
                    LexSt { num: Seq::empty(), number_kind: None, ..st1 },
                    toks1.push(
                        TokenV {
                            data: TokenDataV::TNumber(bits),
                            line: st1.line,
                            column: st1.column,
                        },
                    ),
                ),
            ),
            None => Err(
                LexError {
                    kind: LexErrorKind::BadNumber,
                    line: st1.line as u64,
                    column: st1.column as u64,
                },
            ),
        },
        None => Ok((st1, toks1)),
    }
}

/// UTF-8 encode a scalar value.
pub open spec fn utf8_enc(v: nat) -> Seq<u8> {
    if v < 0x80 {
        seq![v as u8]
    } else if v < 0x800 {
        seq![(0xc0 + v / 0x40) as u8, (0x80 + v % 0x40) as u8]
    } else if v < 0x10000 {
        seq![
            (0xe0 + v / 0x1000) as u8,
            (0x80 + (v / 0x40) % 0x40) as u8,
            (0x80 + v % 0x40) as u8,
        ]
    } else {
        seq![
            (0xf0 + v / 0x40000) as u8,
            (0x80 + (v / 0x1000) % 0x40) as u8,
            (0x80 + (v / 0x40) % 0x40) as u8,
            (0x80 + v % 0x40) as u8,
        ]
    }
}

/// The value of a two-digit hex escape; unparsable digits read as zero.
pub open spec fn esc_hex2(a: u8, b: u8) -> nat {
    match (digit_val(a, 16), digit_val(b, 16)) {
        (Some(x), Some(y)) => x * 16 + y,
        _ => 0,
    }
}

/// The value of a four-digit hex escape; unparsable digits read as zero.
pub open spec fn esc_hex4(a: u8, b: u8, c: u8, d: u8) -> nat {
    match (digit_val(a, 16), digit_val(b, 16), digit_val(c, 16), digit_val(d, 16)) {
        (Some(x), Some(y), Some(z), Some(w)) => ((x * 16 + y) * 16 + z) * 16 + w,
        _ => 0,
    }
}

/// One token, emitted at the current position.
pub open spec fn tok_at(st: LexSt, d: TokenDataV) -> TokenV {
    TokenV { data: d, line: st.line, column: st.column }
}

/// A byte that outside of strings and comments separates tokens.
pub open spec fn is_space(c: u8) -> bool {
    c == 32 || c == 9 || c == 11 || c == 12
}

/// Lex the input from position `i` in state `st`, with the tokens emitted
/// so far: the whole token stream, or the fatal error.
#[verifier::opaque]
pub open spec fn lex_from(input: Seq<u8>, i: int, st: LexSt, toks: Seq<TokenV>) -> Result<
    Seq<TokenV>,
    LexError,
>
    decreases input.len() - i, 1int,
{
    if i < 0 || i >= input.len() {
        match clear_bufs(st, toks) {
            Ok(r) => Ok(r.1),
            Err(e) => Err(e),
        }
    } else {
        let c = input[i];
        let st0 = LexSt { column: st.column + 1, ..st };
        if st0.escaped {
            lex_escape(input, i, LexSt { escaped: false, ..st0 }, toks, c)
        } else if c == 10 && st0.comment_kind == Some(CommentType::SingleLineComment) {
            let t2 = toks.push(tok_at(st0, TokenDataV::TComment(st0.comment)));
            lex_from(
                input,
                i + 1,
                LexSt { comment: Seq::empty(), comment_kind: None, ..st0 },
                t2,
            )
        } else if c == 42 && st0.comment_kind == Some(CommentType::MultiLineComment) && i + 1
            < input.len() && input[i + 1] == 47 {
            let t2 = toks.push(tok_at(st0, TokenDataV::TComment(st0.comment)));
            lex_from(
                input,
                i + 2,
                LexSt { comment: Seq::empty(), comment_kind: None, ..st0 },
                t2,
            )
        } else if st0.comment_kind is Some {
            lex_from(input, i + 1, LexSt { comment: st0.comment.push(c), ..st0 }, toks)
        } else if c == 34 && st0.string_start == Some(StringType::DoubleQuote) {
            let t2 = toks.push(tok_at(st0, TokenDataV::TString(st0.string)));
            lex_from(input, i + 1, LexSt { string: Seq::empty(), string_start: None, ..st0 }, t2)
        } else if c == 39 && st0.string_start == Some(StringType::SingleQuote) {
            let t2 = toks.push(tok_at(st0, TokenDataV::TString(st0.string)));
            lex_from(input, i + 1, LexSt { string: Seq::empty(), string_start: None, ..st0 }, t2)
        } else if c == 92 && st0.string_start is Some {
            lex_from(input, i + 1, LexSt { escaped: true, ..st0 }, toks)
        } else if st0.string_start is Some {
            lex_from(input, i + 1, LexSt { string: st0.string.push(c), ..st0 }, toks)
        } else if c == 34 {
            lex_from(input, i + 1, LexSt { string_start: Some(StringType::DoubleQuote), ..st0 }, toks)
        } else if c == 48 && i + 1 < input.len() && input[i + 1] == 120 {
            lex_from(
                input,
                i + 2,
                LexSt { number_kind: Some(NumberType::HexadecimalNumber), ..st0 },
                toks,
            )
        } else if c == 48 && st0.ident.len() == 0 && st0.number_kind is None {
            lex_from(
                input,
                i + 1,
                LexSt { num: st0.num.push(c), number_kind: Some(NumberType::OctalNumber), ..st0 },
                toks,
            )
        } else if 48 <= c <= 55 && st0.number_kind == Some(NumberType::OctalNumber) {
            lex_from(input, i + 1, LexSt { num: st0.num.push(c), ..st0 }, toks)
        } else if (c == 56 || c == 57) && st0.number_kind == Some(NumberType::OctalNumber) {
            lex_from(
                input,
                i + 1,
                LexSt { num: st0.num.push(c), number_kind: Some(NumberType::DecimalNumber), ..st0 },
                toks,
            )
        } else if (48 <= c <= 57 || 65 <= c <= 70 || 97 <= c <= 102) && st0.number_kind == Some(
            NumberType::HexadecimalNumber,
        ) {
            lex_from(input, i + 1, LexSt { num: st0.num.push(c), ..st0 }, toks)
        } else if 48 <= c <= 57 && st0.ident.len() == 0 {
            lex_from(
                input,
                i + 1,
                LexSt { num: st0.num.push(c), number_kind: Some(NumberType::DecimalNumber), ..st0 },
                toks,
            )
        } else if c == 39 {
            lex_from(input, i + 1, LexSt { string_start: Some(StringType::SingleQuote), ..st0 }, toks)
        } else if c == 46 && st0.number_kind is Some && !st0.num.contains(46) {
            lex_from(
                input,
                i + 1,
                LexSt { num: st0.num.push(c), number_kind: Some(NumberType::DecimalNumber), ..st0 },
                toks,
            )
        } else if c == 59 || c == 58 || c == 46 || c == 44 || c == 40 || c == 41 || c == 123 || c
            == 125 || c == 91 || c == 93 || c == 63 {
            let d = if c == 59 {
                TokenDataV::TSemicolon
            } else if c == 58 {
                TokenDataV::TColon
            } else if c == 46 {
                TokenDataV::TDot
            } else if c == 44 {
                TokenDataV::TComma
            } else if c == 40 {
                TokenDataV::TOpenParen
            } else if c == 41 {
                TokenDataV::TCloseParen
            } else if c == 123 {
                TokenDataV::TOpenBlock
            } else if c == 125 {
                TokenDataV::TCloseBlock
            } else if c == 91 {
                TokenDataV::TOpenArray
            } else if c == 93 {
                TokenDataV::TCloseArray
            } else {
                TokenDataV::TQuestion
            };
            match emit_tok(st0, toks, d) {
                Ok(p) => lex_from(input, i + 1, p.0, p.1),
                Err(e) => Err(e),
            }
        } else if c == 47 && i + 1 < input.len() && input[i + 1] == 47 {
            lex_from(
                input,
                i + 2,
                LexSt { comment_kind: Some(CommentType::SingleLineComment), ..st0 },
                toks,
            )
        } else if c == 47 && i + 1 < input.len() && input[i + 1] == 42 {
            lex_from(
                input,
                i + 2,
                LexSt { comment_kind: Some(CommentType::MultiLineComment), ..st0 },
                toks,
            )
        } else if c == 47 {
            match emit_tok(st0, toks, TokenDataV::TNumOp(NumOp::OpDiv)) {
                Ok(p) => lex_from(input, i + 1, p.0, p.1),
                Err(e) => Err(e),
            }
        } else if c == 42 {
            match emit_tok(st0, toks, TokenDataV::TNumOp(NumOp::OpMul)) {
                Ok(p) => lex_from(input, i + 1, p.0, p.1),
                Err(e) => Err(e),
            }
        } else if c == 43 {
            match emit_tok(st0, toks, TokenDataV::TNumOp(NumOp::OpAdd)) {
                Ok(p) => lex_from(input, i + 1, p.0, p.1),
                Err(e) => Err(e),
            }
        } else if c == 45 {
            match emit_tok(st0, toks, TokenDataV::TNumOp(NumOp::OpSub)) {
                Ok(p) => lex_from(input, i + 1, p.0, p.1),
                Err(e) => Err(e),
            }
        } else if c == 37 {
            match emit_tok(st0, toks, TokenDataV::TNumOp(NumOp::OpMod)) {
                Ok(p) => lex_from(input, i + 1, p.0, p.1),
                Err(e) => Err(e),
            }
        } else if c == 124 && i + 1 < input.len() && input[i + 1] == 124 {
            match emit_tok(st0, toks, TokenDataV::TLogOp(LogOp::LogOr)) {
                Ok(p) => lex_from(input, i + 2, p.0, p.1),
                Err(e) => Err(e),
            }
        } else if c == 124 {
            match emit_tok(st0, toks, TokenDataV::TBitOp(BitOp::BitOr)) {
                Ok(p) => lex_from(input, i + 1, p.0, p.1),
                Err(e) => Err(e),
            }
        } else if c == 38 && i + 1 < input.len() && input[i + 1] == 38 {
            match emit_tok(st0, toks, TokenDataV::TLogOp(LogOp::LogAnd)) {
                Ok(p) => lex_from(input, i + 2, p.0, p.1),
                Err(e) => Err(e),
            }
        } else if c == 38 {
            match emit_tok(st0, toks, TokenDataV::TBitOp(BitOp::BitAnd)) {
                Ok(p) => lex_from(input, i + 1, p.0, p.1),
                Err(e) => Err(e),
            }
        } else if c == 94 {
            match emit_tok(st0, toks, TokenDataV::TBitOp(BitOp::BitXor)) {
                Ok(p) => lex_from(input, i + 1, p.0, p.1),
                Err(e) => Err(e),
            }
        } else if c == 61 && i + 1 < input.len() && input[i + 1] == 62 {
            match emit_tok(st0, toks, TokenDataV::TArrow) {
                Ok(p) => lex_from(input, i + 2, p.0, p.1),
                Err(e) => Err(e),
            }
        } else if c == 61 && i + 1 < input.len() && input[i + 1] == 61 {
            match emit_tok(st0, toks, TokenDataV::TCompOp(CompOp::CompEqual)) {
                Ok(p) => lex_from(input, i + 2, p.0, p.1),
                Err(e) => Err(e),
            }
        } else if c == 61 {
            match emit_tok(st0, toks, TokenDataV::TEqual) {
                Ok(p) => lex_from(input, i + 1, p.0, p.1),
                Err(e) => Err(e),
            }
        } else if c == 60 && i + 1 < input.len() && input[i + 1] == 61 {
            match emit_tok(st0, toks, TokenDataV::TCompOp(CompOp::CompLessThanOrEqual)) {
                Ok(p) => lex_from(input, i + 2, p.0, p.1),
                Err(e) => Err(e),
            }
        } else if c == 60 {
            match emit_tok(st0, toks, TokenDataV::TCompOp(CompOp::CompLessThan)) {
                Ok(p) => lex_from(input, i + 1, p.0, p.1),
                Err(e) => Err(e),
            }
        } else if c == 62 && i + 1 < input.len() && input[i + 1] == 61 {
            match emit_tok(st0, toks, TokenDataV::TCompOp(CompOp::CompGreaterThanOrEqual)) {
                Ok(p) => lex_from(input, i + 2, p.0, p.1),
                Err(e) => Err(e),
            }
        } else if c == 62 {
            match emit_tok(st0, toks, TokenDataV::TCompOp(CompOp::CompGreaterThan)) {
                Ok(p) => lex_from(input, i + 1, p.0, p.1),
                Err(e) => Err(e),
            }
        } else if c == 33 && i + 1 < input.len() && input[i + 1] == 61 {
            match emit_tok(st0, toks, TokenDataV::TCompOp(CompOp::CompNotEqual)) {
                Ok(p) => lex_from(input, i + 2, p.0, p.1),
                Err(e) => Err(e),
            }
        } else if c == 10 {
            match clear_bufs(st0, toks) {
                Ok(r) => lex_from(input, i + 1, LexSt { line: r.0.line + 1, column: 0, ..r.0 }, r.1),
                Err(e) => Err(e),
            }
        } else if c == 13 {
            match clear_bufs(st0, toks) {
                Ok(r) => lex_from(input, i + 1, LexSt { column: 0, ..r.0 }, r.1),
                Err(e) => Err(e),
            }
        } else if is_space(c) {
            match clear_bufs(st0, toks) {
                Ok(r) => lex_from(input, i + 1, r.0, r.1),
                Err(e) => Err(e),
            }
        } else {
            lex_from(input, i + 1, LexSt { ident: st0.ident.push(c), ..st0 }, toks)
        }
    }
}

/// Flush the buffers, then emit one token at the flushed state's position.
pub open spec fn emit_tok(st: LexSt, toks: Seq<TokenV>, d: TokenDataV) -> Result<
    (LexSt, Seq<TokenV>),
    LexError,
> {
    match clear_bufs(st, toks) {
        Ok(r) => Ok((r.0, r.1.push(tok_at(r.0, d)))),
        Err(e) => Err(e),
    }
}

/// Process one escaped byte (and the extra bytes of a hex escape).
#[verifier::opaque]
pub open spec fn lex_escape(
    input: Seq<u8>,
    i: int,
    st: LexSt,
    toks: Seq<TokenV>,
    c: u8,
) -> Result<Seq<TokenV>, LexError>
    decreases input.len() - i, 0int,
{
    if i < 0 || i >= input.len() {
        Err(
            LexError {
                kind: LexErrorKind::BadEscape,
                line: st.line as u64,
                column: st.column as u64,
            },
        )
    } else if c == 10 {
        lex_from(input, i + 1, st, toks)
    } else if c == 110 {
        lex_from(input, i + 1, LexSt { string: st.string.push(10), ..st }, toks)
    } else if c == 114 {
        lex_from(input, i + 1, LexSt { string: st.string.push(13), ..st }, toks)
    } else if c == 116 {
        lex_from(input, i + 1, LexSt { string: st.string.push(9), ..st }, toks)
    } else if c == 98 {
        lex_from(input, i + 1, LexSt { string: st.string.push(8), ..st }, toks)
    } else if c == 102 {
        lex_from(input, i + 1, LexSt { string: st.string.push(12), ..st }, toks)
    } else if c == 48 {
        lex_from(input, i + 1, LexSt { string: st.string.push(0), ..st }, toks)
    } else if c == 120 {
        if i + 2 >= input.len() {
            Err(
                LexError {
                    kind: LexErrorKind::BadEscape,
                    line: st.line as u64,
                    column: st.column as u64,
                },
            )
        } else {
            let v = esc_hex2(input[i + 1], input[i + 2]);
            lex_from(
                input,
                i + 3,
                LexSt { string: st.string + utf8_enc(v), column: st.column + 2, ..st },
                toks,
            )
        }
    } else if c == 117 {
        if i + 4 >= input.len() {
            Err(
                LexError {
                    kind: LexErrorKind::BadEscape,
                    line: st.line as u64,
                    column: st.column as u64,
                },
            )
        } else {
            let v = esc_hex4(input[i + 1], input[i + 2], input[i + 3], input[i + 4]);
            if 0xd800 <= v < 0xe000 {
                Err(
                    LexError {
                        kind: LexErrorKind::BadScalar,
                        line: st.line as u64,
                        column: (st.column + 4) as u64,
                    },
                )
            } else {
                lex_from(
                    input,
                    i + 5,
                    LexSt { string: st.string + utf8_enc(v), column: st.column + 4, ..st },
                    toks,
                )
            }
        }
    } else if c == 39 && st.string_start == Some(StringType::SingleQuote) {
        lex_from(input, i + 1, LexSt { string: st.string.push(39), ..st }, toks)
    } else if c == 34 && st.string_start == Some(StringType::DoubleQuote) {
        lex_from(input, i + 1, LexSt { string: st.string.push(34), ..st }, toks)
    } else {
        Err(
            LexError {
                kind: LexErrorKind::BadEscape,
                line: st.line as u64,
                column: st.column as u64,
            },
        )
    }
}

/// The token stream of a byte string, from a fresh lexer.
pub open spec fn lex_spec(input: Seq<u8>) -> Result<Seq<TokenV>, LexError> {
    lex_from(input, 0, init_st(), Seq::empty())
}


/// A symbol arm of the dispatch: the buffers flush and the token `d` is
/// emitted, the position advancing by `adv`.
#[verifier::rlimit(100)]
proof fn lemma_symbol_emit(input: Seq<u8>, i: int, st: LexSt, toks: Seq<TokenV>, d: TokenDataV, adv: int)
    requires
        0 <= i < input.len(),
        !st.escaped,
        st.comment_kind is None,
        st.string_start is None,
        ({
            let c = input[i];
            &&& c != 34
            &&& c != 39
            &&& !(c == 48 && i + 1 < input.len() && input[i + 1] == 120)
            &&& !(c == 48 && st.ident.len() == 0 && st.number_kind is None)
            &&& !(48 <= c <= 55 && st.number_kind == Some(NumberType::OctalNumber))
            &&& !((c == 56 || c == 57) && st.number_kind == Some(NumberType::OctalNumber))
            &&& !((48 <= c <= 57 || 65 <= c <= 70 || 97 <= c <= 102) && st.number_kind == Some(
                NumberType::HexadecimalNumber,
            ))
            &&& !(48 <= c <= 57 && st.ident.len() == 0)
            &&& !(c == 46 && st.number_kind is Some && !st.num.contains(46))
        }),
        ({
            let c = input[i];
            ||| (c == 59 && d == TokenDataV::TSemicolon && adv == 1)
            ||| (c == 58 && d == TokenDataV::TColon && adv == 1)
            ||| (c == 46 && d == TokenDataV::TDot && adv == 1)
            ||| (c == 44 && d == TokenDataV::TComma && adv == 1)
            ||| (c == 40 && d == TokenDataV::TOpenParen && adv == 1)
            ||| (c == 41 && d == TokenDataV::TCloseParen && adv == 1)
            ||| (c == 123 && d == TokenDataV::TOpenBlock && adv == 1)
            ||| (c == 125 && d == TokenDataV::TCloseBlock && adv == 1)
            ||| (c == 91 && d == TokenDataV::TOpenArray && adv == 1)
            ||| (c == 93 && d == TokenDataV::TCloseArray && adv == 1)
            ||| (c == 63 && d == TokenDataV::TQuestion && adv == 1)
            ||| (c == 47 && !(i + 1 < input.len() && input[i + 1] == 47) && !(i + 1 < input.len() && input[i + 1] == 42) && d == TokenDataV::TNumOp(NumOp::OpDiv) && adv == 1)
            ||| (c == 42 && d == TokenDataV::TNumOp(NumOp::OpMul) && adv == 1)
            ||| (c == 43 && d == TokenDataV::TNumOp(NumOp::OpAdd) && adv == 1)
            ||| (c == 45 && d == TokenDataV::TNumOp(NumOp::OpSub) && adv == 1)
            ||| (c == 37 && d == TokenDataV::TNumOp(NumOp::OpMod) && adv == 1)
            ||| (c == 124 && i + 1 < input.len() && input[i + 1] == 124 && d == TokenDataV::TLogOp(LogOp::LogOr) && adv == 2)
            ||| (c == 124 && !(i + 1 < input.len() && input[i + 1] == 124) && d == TokenDataV::TBitOp(BitOp::BitOr) && adv == 1)
            ||| (c == 38 && i + 1 < input.len() && input[i + 1] == 38 && d == TokenDataV::TLogOp(LogOp::LogAnd) && adv == 2)
            ||| (c == 38 && !(i + 1 < input.len() && input[i + 1] == 38) && d == TokenDataV::TBitOp(BitOp::BitAnd) && adv == 1)
            ||| (c == 94 && d == TokenDataV::TBitOp(BitOp::BitXor) && adv == 1)
            ||| (c == 61 && i + 1 < input.len() && input[i + 1] == 62 && d == TokenDataV::TArrow && adv == 2)
            ||| (c == 61 && !(i + 1 < input.len() && input[i + 1] == 62) && i + 1 < input.len() && input[i + 1] == 61 && d == TokenDataV::TCompOp(CompOp::CompEqual) && adv == 2)
            ||| (c == 61 && !(i + 1 < input.len() && input[i + 1] == 62) && !(i + 1 < input.len() && input[i + 1] == 61) && d == TokenDataV::TEqual && adv == 1)
            ||| (c == 60 && i + 1 < input.len() && input[i + 1] == 61 && d == TokenDataV::TCompOp(CompOp::CompLessThanOrEqual) && adv == 2)
            ||| (c == 60 && !(i + 1 < input.len() && input[i + 1] == 61) && d == TokenDataV::TCompOp(CompOp::CompLessThan) && adv == 1)
            ||| (c == 62 && i + 1 < input.len() && input[i + 1] == 61 && d == TokenDataV::TCompOp(CompOp::CompGreaterThanOrEqual) && adv == 2)
            ||| (c == 62 && !(i + 1 < input.len() && input[i + 1] == 61) && d == TokenDataV::TCompOp(CompOp::CompGreaterThan) && adv == 1)
            ||| (c == 33 && i + 1 < input.len() && input[i + 1] == 61 && d == TokenDataV::TCompOp(CompOp::CompNotEqual) && adv == 2)
        }),
    ensures
        lex_from(input, i, st, toks) == (match emit_tok(
            LexSt { column: st.column + 1, ..st },
            toks,
            d,
        ) {
            Ok(p) => lex_from(input, i + adv, p.0, p.1),
            Err(e) => Err(e),
        }),
{
    reveal(lex_from);
}

/// The newline arm of the dispatch.
proof fn lemma_symbol_newline(input: Seq<u8>, i: int, st: LexSt, toks: Seq<TokenV>)
    requires
        0 <= i < input.len(),
        !st.escaped,
        st.comment_kind is None,
        st.string_start is None,
        ({
            let c = input[i];
            &&& c != 34
            &&& c != 39
            &&& !(c == 48 && i + 1 < input.len() && input[i + 1] == 120)
            &&& !(c == 48 && st.ident.len() == 0 && st.number_kind is None)
            &&& !(48 <= c <= 55 && st.number_kind == Some(NumberType::OctalNumber))
            &&& !((c == 56 || c == 57) && st.number_kind == Some(NumberType::OctalNumber))
            &&& !((48 <= c <= 57 || 65 <= c <= 70 || 97 <= c <= 102) && st.number_kind == Some(
                NumberType::HexadecimalNumber,
            ))
            &&& !(48 <= c <= 57 && st.ident.len() == 0)
            &&& !(c == 46 && st.number_kind is Some && !st.num.contains(46))
        }),
        input[i] == 10,
    ensures
        lex_from(input, i, st, toks) == (match clear_bufs(
            LexSt { column: st.column + 1, ..st },
            toks,
        ) {
            Ok(r) => lex_from(input, i + 1, LexSt { line: r.0.line + 1, column: 0, ..r.0 }, r.1),
            Err(e) => Err(e),
        }),
{
    reveal(lex_from);
}

/// The carriage-return arm of the dispatch.
proof fn lemma_symbol_cr(input: Seq<u8>, i: int, st: LexSt, toks: Seq<TokenV>)
    requires
        0 <= i < input.len(),
        !st.escaped,
        st.comment_kind is None,
        st.string_start is None,
        ({
            let c = input[i];
            &&& c != 34
            &&& c != 39
            &&& !(c == 48 && i + 1 < input.len() && input[i + 1] == 120)
            &&& !(c == 48 && st.ident.len() == 0 && st.number_kind is None)
            &&& !(48 <= c <= 55 && st.number_kind == Some(NumberType::OctalNumber))
            &&& !((c == 56 || c == 57) && st.number_kind == Some(NumberType::OctalNumber))
            &&& !((48 <= c <= 57 || 65 <= c <= 70 || 97 <= c <= 102) && st.number_kind == Some(
                NumberType::HexadecimalNumber,
            ))
            &&& !(48 <= c <= 57 && st.ident.len() == 0)
            &&& !(c == 46 && st.number_kind is Some && !st.num.contains(46))
        }),
        input[i] == 13,
    ensures
        lex_from(input, i, st, toks) == (match clear_bufs(
            LexSt { column: st.column + 1, ..st },
            toks,
        ) {
            Ok(r) => lex_from(input, i + 1, LexSt { column: 0, ..r.0 }, r.1),
            Err(e) => Err(e),
        }),
{
    reveal(lex_from);
}

/// The whitespace arm of the dispatch.
proof fn lemma_symbol_space(input: Seq<u8>, i: int, st: LexSt, toks: Seq<TokenV>)
    requires
        0 <= i < input.len(),
        !st.escaped,
        st.comment_kind is None,
        st.string_start is None,
        ({
            let c = input[i];
            &&& c != 34
            &&& c != 39
            &&& !(c == 48 && i + 1 < input.len() && input[i + 1] == 120)
            &&& !(c == 48 && st.ident.len() == 0 && st.number_kind is None)
            &&& !(48 <= c <= 55 && st.number_kind == Some(NumberType::OctalNumber))
            &&& !((c == 56 || c == 57) && st.number_kind == Some(NumberType::OctalNumber))
            &&& !((48 <= c <= 57 || 65 <= c <= 70 || 97 <= c <= 102) && st.number_kind == Some(
                NumberType::HexadecimalNumber,
            ))
            &&& !(48 <= c <= 57 && st.ident.len() == 0)
            &&& !(c == 46 && st.number_kind is Some && !st.num.contains(46))
        }),
        input[i] == 32 || input[i] == 9 || input[i] == 11 || input[i] == 12,
    ensures
        lex_from(input, i, st, toks) == (match clear_bufs(
            LexSt { column: st.column + 1, ..st },
            toks,
        ) {
            Ok(r) => lex_from(input, i + 1, r.0, r.1),
            Err(e) => Err(e),
        }),
{
    reveal(lex_from);
}

/// The comment-opening arms of the dispatch.
proof fn lemma_symbol_comment_start(input: Seq<u8>, i: int, st: LexSt, toks: Seq<TokenV>, kind: CommentType)
    requires
        0 <= i < input.len(),
        !st.escaped,
        st.comment_kind is None,
        st.string_start is None,
        ({
            let c = input[i];
            &&& c != 34
            &&& c != 39
            &&& !(c == 48 && i + 1 < input.len() && input[i + 1] == 120)
            &&& !(c == 48 && st.ident.len() == 0 && st.number_kind is None)
            &&& !(48 <= c <= 55 && st.number_kind == Some(NumberType::OctalNumber))
            &&& !((c == 56 || c == 57) && st.number_kind == Some(NumberType::OctalNumber))
            &&& !((48 <= c <= 57 || 65 <= c <= 70 || 97 <= c <= 102) && st.number_kind == Some(
                NumberType::HexadecimalNumber,
            ))
            &&& !(48 <= c <= 57 && st.ident.len() == 0)
            &&& !(c == 46 && st.number_kind is Some && !st.num.contains(46))
        }),
        input[i] == 47 && i + 1 < input.len(),
        kind == CommentType::SingleLineComment ==> input[i + 1] == 47,
        kind == CommentType::MultiLineComment ==> input[i + 1] == 42 && input[i + 1] != 47,
    ensures
        lex_from(input, i, st, toks) == lex_from(
            input,
            i + 2,
            LexSt { comment_kind: Some(kind), column: st.column + 1, ..st },
            toks,
        ),
{
    reveal(lex_from);
}

/// The identifier arm of the dispatch: any byte no other arm takes.
proof fn lemma_symbol_ident(input: Seq<u8>, i: int, st: LexSt, toks: Seq<TokenV>)
    requires
        0 <= i < input.len(),
        !st.escaped,
        st.comment_kind is None,
        st.string_start is None,
        ({
            let c = input[i];
            &&& c != 34
            &&& c != 39
            &&& !(c == 48 && i + 1 < input.len() && input[i + 1] == 120)
            &&& !(c == 48 && st.ident.len() == 0 && st.number_kind is None)
            &&& !(48 <= c <= 55 && st.number_kind == Some(NumberType::OctalNumber))
            &&& !((c == 56 || c == 57) && st.number_kind == Some(NumberType::OctalNumber))
            &&& !((48 <= c <= 57 || 65 <= c <= 70 || 97 <= c <= 102) && st.number_kind == Some(
                NumberType::HexadecimalNumber,
            ))
            &&& !(48 <= c <= 57 && st.ident.len() == 0)
            &&& !(c == 46 && st.number_kind is Some && !st.num.contains(46))
        }),
        ({
            let c = input[i];
            &&& c != 59 && c != 58 && c != 46 && c != 44 && c != 40 && c != 41 && c != 123
            &&& c != 125 && c != 91 && c != 93 && c != 63
            &&& c != 47 && c != 42 && c != 43 && c != 45 && c != 37
            &&& c != 124 && c != 38 && c != 94 && c != 61 && c != 60 && c != 62
            &&& !(c == 33 && i + 1 < input.len() && input[i + 1] == 61)
            &&& c != 10 && c != 13 && c != 32 && c != 9 && c != 11 && c != 12
        }),
    ensures
        lex_from(input, i, st, toks) == lex_from(
            input,
            i + 1,
            LexSt { ident: st.ident.push(input[i]), column: st.column + 1, ..st },
            toks,
        ),
{
    reveal(lex_from);
}

/// The string-closing arm: the literal's token is emitted.
proof fn lemma_string_close(input: Seq<u8>, i: int, st: LexSt, toks: Seq<TokenV>)
    requires
        0 <= i < input.len(),
        !st.escaped,
        st.comment_kind is None,
        (input[i] == 34 && st.string_start == Some(StringType::DoubleQuote)) || (input[i] == 39
            && st.string_start == Some(StringType::SingleQuote)),
    ensures
        lex_from(input, i, st, toks) == lex_from(
            input,
            i + 1,
            LexSt {
                string: Seq::empty(),
                string_start: None,
                column: st.column + 1,
                ..st
            },
            toks.push(
                tok_at(
                    LexSt { column: st.column + 1, ..st },
                    TokenDataV::TString(st.string),
                ),
            ),
        ),
{
    reveal(lex_from);
}

/// The backslash arm: the next byte is an escape.
proof fn lemma_string_backslash(input: Seq<u8>, i: int, st: LexSt, toks: Seq<TokenV>)
    requires
        0 <= i < input.len(),
        !st.escaped,
        st.comment_kind is None,
        st.string_start is Some,
        input[i] == 92,
        !(input[i] == 34 && st.string_start == Some(StringType::DoubleQuote)),
        !(input[i] == 39 && st.string_start == Some(StringType::SingleQuote)),
    ensures
        lex_from(input, i, st, toks) == lex_from(
            input,
            i + 1,
            LexSt { escaped: true, column: st.column + 1, ..st },
            toks,
        ),
{
    reveal(lex_from);
}

/// The in-string arm: the byte joins the literal.
proof fn lemma_string_push(input: Seq<u8>, i: int, st: LexSt, toks: Seq<TokenV>)
    requires
        0 <= i < input.len(),
        !st.escaped,
        st.comment_kind is None,
        st.string_start is Some,
        input[i] != 92,
        !(input[i] == 34 && st.string_start == Some(StringType::DoubleQuote)),
        !(input[i] == 39 && st.string_start == Some(StringType::SingleQuote)),
    ensures
        lex_from(input, i, st, toks) == lex_from(
            input,
            i + 1,
            LexSt { string: st.string.push(input[i]), column: st.column + 1, ..st },
            toks,
        ),
{
    reveal(lex_from);
}

/// The mathematical shape of a lexer.
pub struct LexerV {
    pub tokens: Seq<TokenV>,
    pub st: LexSt,
    pub input: Seq<u8>,
    pub pos: int,
}

/// The lexer's internal bounds: the position is inside the input, the
/// positions fit the counters, and the input leaves headroom for them.
pub open spec fn lexer_inv(l: LexerV) -> bool {
    &&& 0 <= l.pos <= l.input.len()
    &&& l.st.line <= 1 + l.pos
    &&& l.st.column <= 1 + l.pos
    &&& l.input.len() <= 0xffff_ffff_ffff_0000
}

/// The Javascript Lexer
#[derive(Debug)]
pub struct Lexer {
    /// The list of tokens generated so far
    pub tokens: Vec<Token>,
    /// The buffer for identities
    pub ident_buffer: Vec<u8>,
    /// The buffer for strings
    pub string_buffer: Vec<u8>,
    /// The buffer for comments
    pub comment_buffer: Vec<u8>,
    /// The buffer for numbers
    pub num_buffer: Vec<u8>,
    /// The kind of string of the current string literal, if any
    pub string_start: Option<StringType>,
    /// The kind of the current comment, if any
    pub current_comment: Option<CommentType>,
    /// The kind of the current number, if any
    pub current_number: Option<NumberType>,
    /// If a backwards slash has just been read
    pub escaped: bool,
    /// The current line number
    pub line_number: u64,
    /// The current column number
    pub column_number: u64,
    /// The input bytes
    pub input: Vec<u8>,
    /// How many input bytes were consumed
    pub pos: usize,
}

impl View for Lexer {
    type V = LexerV;

    open spec fn view(&self) -> LexerV {
        LexerV {
            tokens: self.tokens@.map(|i: int, t: Token| t@),
            st: LexSt {
                ident: self.ident_buffer@,
                string: self.string_buffer@,
                comment: self.comment_buffer@,
                num: self.num_buffer@,
                string_start: self.string_start,
                comment_kind: self.current_comment,
                number_kind: self.current_number,
                escaped: self.escaped,
                line: self.line_number as nat,
                column: self.column_number as nat,
            },
            input: self.input@,
            pos: self.pos as int,
        }
    }
}

/// One hex digit's value.
fn hex_v(c: u8) -> (r: Option<u8>)
    ensures
        match r {
            Some(v) => digit_val(c, 16) == Some(v as nat),
            None => digit_val(c, 16) is None,
        },
{
    if 48 <= c && c <= 57 {
        Some(c - 48)
    } else if 97 <= c && c <= 102 {
        Some(c - 87)
    } else if 65 <= c && c <= 70 {
        Some(c - 55)
    } else {
        None
    }
}

/// Append the UTF-8 encoding of a scalar value.
fn push_utf8(out: &mut Vec<u8>, v: u64)
    requires
        v < 0x11_0000,
    ensures
        final(out)@ == old(out)@ + utf8_enc(v as nat),
{
    if v < 0x80 {
        out.push(v as u8);
        proof {
            assert(out@ =~= old(out)@ + utf8_enc(v as nat));
        }
    } else if v < 0x800 {
        out.push((0xc0 + v / 0x40) as u8);
        out.push((0x80 + v % 0x40) as u8);
        proof {
            assert(out@ =~= old(out)@ + utf8_enc(v as nat));
        }
    } else if v < 0x10000 {
        out.push((0xe0 + v / 0x1000) as u8);
        out.push((0x80 + (v / 0x40) % 0x40) as u8);
        out.push((0x80 + v % 0x40) as u8);
        proof {
            assert(out@ =~= old(out)@ + utf8_enc(v as nat));
        }
    } else {
        out.push((0xf0 + v / 0x40000) as u8);
        out.push((0x80 + (v / 0x1000) % 0x40) as u8);
        out.push((0x80 + (v / 0x40) % 0x40) as u8);
        out.push((0x80 + v % 0x40) as u8);
        proof {
            assert(out@ =~= old(out)@ + utf8_enc(v as nat));
        }
    }
}

/// Whether the buffer holds a dot.
fn has_dot(v: &Vec<u8>) -> (r: bool)
    ensures
        r == v@.contains(46u8),
{
    let mut i: usize = 0;
    while i < v.len()
        invariant
            i <= v.len(),
            forall|j: int| 0 <= j < i ==> v@[j] != 46,
        decreases v.len() - i,
    {
        if v[i] == 46 {
            return true;
        }
        i = i + 1;
    }
    proof {
        assert(!v@.contains(46u8)) by {
            if v@.contains(46u8) {
                let j = choose|j: int| 0 <= j < v@.len() && v@[j] == 46;
                assert(v@[j] != 46);
            }
        }
    }
    false
}

impl Lexer {
    /// Creates a new lexer with empty buffers over the given input.
    pub fn new(input: Vec<u8>) -> (l: Lexer)
        requires
            input@.len() <= 0xffff_ffff_ffff_0000,
        ensures
            l@ == (LexerV { tokens: Seq::empty(), st: init_st(), input: input@, pos: 0 }),
            lexer_inv(l@),
    {
        let l = Lexer {
            tokens: Vec::new(),
            ident_buffer: Vec::new(),
            string_buffer: Vec::new(),
            comment_buffer: Vec::new(),
            num_buffer: Vec::new(),
            string_start: None,
            current_comment: None,
            current_number: None,
            escaped: false,
            line_number: 1,
            column_number: 0,
            input,
            pos: 0,
        };
        proof {
            assert(l@.tokens =~= Seq::<TokenV>::empty());
            assert(l@.st.ident =~= Seq::<u8>::empty());
            assert(l@.st.string =~= Seq::<u8>::empty());
            assert(l@.st.comment =~= Seq::<u8>::empty());
            assert(l@.st.num =~= Seq::<u8>::empty());
            assert(l@.st == init_st());
        }
        l
    }

    /// The bits of a numeric literal buffer; `None` is fatal.
    fn num_bits(buf: &Vec<u8>, kind: NumberType) -> (r: Option<u64>)
        ensures
            r == num_value(buf@, kind),
    {
        let mut dots: u64 = 0;
        let mut ok = true;
        let mut i: usize = 0;
        while i < buf.len()
            invariant
                i <= buf.len(),
                dots as nat == count_dots(buf@.subrange(0, i as int)),
                dots <= i,
                ok == (forall|j: int|
                    0 <= j < i ==> (48 <= #[trigger] buf@[j] <= 57 || buf@[j] == 46)),
            decreases buf.len() - i,
        {
            let c = buf[i];
            let ghost pre = buf@.subrange(0, i as int);
            proof {
                assert(buf@.subrange(0, i as int + 1).drop_last() =~= pre);
                assert(buf@.subrange(0, i as int + 1).last() == buf@[i as int]);
            }
            let ghost okold = ok;
            if c == 46 {
                dots = dots + 1;
            } else if !(48 <= c && c <= 57) {
                ok = false;
            }
            i = i + 1;
            proof {
                if okold && (48 <= c <= 57 || c == 46) {
                    assert forall|j: int| 0 <= j < i implies (48 <= #[trigger] buf@[j] <= 57
                        || buf@[j] == 46) by {
                        if j < i - 1 {
                        } else {
                            assert(buf@[j] == c);
                        }
                    }
                } else if okold {
                    assert(!(48 <= buf@[i - 1] <= 57 || buf@[i - 1] == 46));
                }
            }
        }
        proof {
            assert(buf@.subrange(0, buf@.len() as int) =~= buf@);
        }
        let is_dec = matches!(kind, NumberType::DecimalNumber);
        if is_dec && dots > 0 {
            proof {
                assert(count_dots(buf@) > 0);
            }
            if ok && dots <= 1 && (dots as usize) < buf.len() {
                proof {
                    assert(num_body_ok(buf@));
                }
                let u = crate::value::normalize_num(buf);
                Some(of_dec_str_bits(&u))
            } else {
                proof {
                    assert(!num_body_ok(buf@));
                }
                None
            }
        } else {
            if buf.len() == 0 {
                return None;
            }
            let radix: u64 = match kind {
                NumberType::HexadecimalNumber => 16,
                NumberType::OctalNumber => 8,
                NumberType::DecimalNumber => 10,
            };
            match parse_digits(buf, radix) {
                Some(v) => {
                    if v < 0x20_0000_0000_0000 {
                        Some(bits_of_u53(v as u64))
                    } else {
                        Some(of_u128_bits(v))
                    }
                },
                None => None,
            }
        }
    }

    /// Flush the pending identifier and number.
    fn clear_buffer(&mut self) -> (r: Result<(), LexError>)
        ensures
            match clear_bufs(old(self)@.st, old(self)@.tokens) {
                Ok(p) => r is Ok && final(self)@ == (LexerV {
                    tokens: p.1,
                    st: p.0,
                    input: old(self)@.input,
                    pos: old(self)@.pos,
                }),
                Err(e) => r == Err::<(), LexError>(e),
            },
    {
        if self.ident_buffer.len() > 0 {
            let b = dup_bytes_local(&self.ident_buffer);
            self.ident_buffer = Vec::new();
            let t = Token::new(TokenData::TIdent(b), self.line_number, self.column_number);
            self.tokens.push(t);
            proof {
                assert(self@.st.ident =~= Seq::<u8>::empty());
                assert(self@.tokens =~= old(self)@.tokens.push(
                    TokenV {
                        data: TokenDataV::TIdent(old(self)@.st.ident),
                        line: old(self)@.st.line,
                        column: old(self)@.st.column,
                    },
                ));
            }
        }
        let kind = self.current_number;
        match kind {
            Some(k) => {
                match Lexer::num_bits(&self.num_buffer, k) {
                    Some(bits) => {
                        let t = Token::new(
                            TokenData::TNumber(bits),
                            self.line_number,
                            self.column_number,
                        );
                        self.tokens.push(t);
                        self.num_buffer = Vec::new();
                        self.current_number = None;
                        proof {
                            assert(self@.st.num =~= Seq::<u8>::empty());
                            match clear_bufs(old(self)@.st, old(self)@.tokens) {
                                Ok(p) => {
                                    assert(self@.tokens =~= p.1);
                                    assert(self@.st == p.0);
                                },
                                Err(_) => {},
                            }
                        }
                        Ok(())
                    },
                    None => Err(
                        LexError {
                            kind: LexErrorKind::BadNumber,
                            line: self.line_number,
                            column: self.column_number,
                        },
                    ),
                }
            },
            None => Ok(()),
        }
    }
}

/// Copy a byte string.
fn dup_bytes_local(v: &Vec<u8>) -> (r: Vec<u8>)
    ensures
        r@ == v@,
{
    crate::value::dup_bytes(v)
}

impl Lexer {
    /// Flush the buffers and emit one token at the current position.
    fn flush_emit(&mut self, d: TokenData) -> (r: Result<(), LexError>)
        ensures
            match emit_tok(old(self)@.st, old(self)@.tokens, d@) {
                Ok(p) => r is Ok && final(self)@ == (LexerV {
                    tokens: p.1,
                    st: p.0,
                    input: old(self)@.input,
                    pos: old(self)@.pos,
                }),
                Err(e) => r == Err::<(), LexError>(e),
            },
    {
        let ghost dv = d@;
        match self.clear_buffer() {
            Ok(()) => {
                let t = Token::new(d, self.line_number, self.column_number);
                self.tokens.push(t);
                proof {
                    match clear_bufs(old(self)@.st, old(self)@.tokens) {
                        Ok(p) => {
                            assert(self@.tokens =~= p.1.push(tok_at(p.0, dv)));
                        },
                        Err(_) => {},
                    }
                }
                Ok(())
            },
            Err(e) => Err(e),
        }
    }

    /// Consume one dispatch step: one byte, or an escape or two-byte
    /// operator with its lookahead.
    fn step(&mut self) -> (r: Result<(), LexError>)
        requires
            lexer_inv(old(self)@),
            old(self)@.pos < old(self)@.input.len(),
        ensures
            match r {
                Ok(()) => lexer_inv(final(self)@) && final(self)@.input == old(self)@.input
                    && final(self)@.pos > old(self)@.pos && lex_from(
                    old(self)@.input,
                    old(self)@.pos,
                    old(self)@.st,
                    old(self)@.tokens,
                ) == lex_from(
                    final(self)@.input,
                    final(self)@.pos,
                    final(self)@.st,
                    final(self)@.tokens,
                ),
                Err(e) => lex_from(
                    old(self)@.input,
                    old(self)@.pos,
                    old(self)@.st,
                    old(self)@.tokens,
                ) == Err::<Seq<TokenV>, LexError>(e),
            },
    {
        if self.escaped {
            self.step_escape()
        } else if self.current_comment.is_some() {
            self.step_comment()
        } else if self.string_start.is_some() {
            self.step_string()
        } else {
            self.step_plain()
        }
    }

    /// One escaped byte, with the extra bytes of a hex escape.
    #[verifier::rlimit(100)]
    fn step_escape(&mut self) -> (r: Result<(), LexError>)
        requires
            lexer_inv(old(self)@),
            old(self)@.pos < old(self)@.input.len(),
            old(self)@.st.escaped,
        ensures
            match r {
                Ok(()) => lexer_inv(final(self)@) && final(self)@.input == old(self)@.input
                    && final(self)@.pos > old(self)@.pos && lex_from(
                    old(self)@.input,
                    old(self)@.pos,
                    old(self)@.st,
                    old(self)@.tokens,
                ) == lex_from(
                    final(self)@.input,
                    final(self)@.pos,
                    final(self)@.st,
                    final(self)@.tokens,
                ),
                Err(e) => lex_from(
                    old(self)@.input,
                    old(self)@.pos,
                    old(self)@.st,
                    old(self)@.tokens,
                ) == Err::<Seq<TokenV>, LexError>(e),
            },
    {
        let c = self.input[self.pos];
        self.column_number = self.column_number + 1;
        let len = self.input.len();
        self.escaped = false;
        if c == 10 {
            self.pos = self.pos + 1;
            proof {
                reveal(lex_from);
                reveal(lex_escape);
                let oldv = old(self)@;
                let stesc = LexSt { escaped: false, column: oldv.st.column + 1, ..oldv.st };
                assert(lex_from(oldv.input, oldv.pos, oldv.st, oldv.tokens) == lex_escape(
                    oldv.input,
                    oldv.pos,
                    stesc,
                    oldv.tokens,
                    oldv.input[oldv.pos],
                ));
                assert(lex_escape(oldv.input, oldv.pos, stesc, oldv.tokens, oldv.input[oldv.pos])
                    == lex_from(self@.input, self@.pos, self@.st, self@.tokens));
            }
            return Ok(());
        }
        if c == 110 {
            self.string_buffer.push(10);
            self.pos = self.pos + 1;
            proof {
                reveal(lex_from);
                reveal(lex_escape);
                let oldv = old(self)@;
                let stesc = LexSt { escaped: false, column: oldv.st.column + 1, ..oldv.st };
                assert(lex_from(oldv.input, oldv.pos, oldv.st, oldv.tokens) == lex_escape(
                    oldv.input,
                    oldv.pos,
                    stesc,
                    oldv.tokens,
                    oldv.input[oldv.pos],
                ));
                assert(lex_escape(oldv.input, oldv.pos, stesc, oldv.tokens, oldv.input[oldv.pos])
                    == lex_from(self@.input, self@.pos, self@.st, self@.tokens));
            }
            return Ok(());
        }
        if c == 114 {
            self.string_buffer.push(13);
            self.pos = self.pos + 1;
            proof {
                reveal(lex_from);
                reveal(lex_escape);
                let oldv = old(self)@;
                let stesc = LexSt { escaped: false, column: oldv.st.column + 1, ..oldv.st };
                assert(lex_from(oldv.input, oldv.pos, oldv.st, oldv.tokens) == lex_escape(
                    oldv.input,
                    oldv.pos,
                    stesc,
                    oldv.tokens,
                    oldv.input[oldv.pos],
                ));
                assert(lex_escape(oldv.input, oldv.pos, stesc, oldv.tokens, oldv.input[oldv.pos])
                    == lex_from(self@.input, self@.pos, self@.st, self@.tokens));
            }
            return Ok(());
        }
        if c == 116 {
            self.string_buffer.push(9);
            self.pos = self.pos + 1;
            proof {
                reveal(lex_from);
                reveal(lex_escape);
                let oldv = old(self)@;
                let stesc = LexSt { escaped: false, column: oldv.st.column + 1, ..oldv.st };
                assert(lex_from(oldv.input, oldv.pos, oldv.st, oldv.tokens) == lex_escape(
                    oldv.input,
                    oldv.pos,
                    stesc,
                    oldv.tokens,
                    oldv.input[oldv.pos],
                ));
                assert(lex_escape(oldv.input, oldv.pos, stesc, oldv.tokens, oldv.input[oldv.pos])
                    == lex_from(self@.input, self@.pos, self@.st, self@.tokens));
            }
            return Ok(());
        }
        if c == 98 {
            self.string_buffer.push(8);
            self.pos = self.pos + 1;
            proof {
                reveal(lex_from);
                reveal(lex_escape);
                let oldv = old(self)@;
                let stesc = LexSt { escaped: false, column: oldv.st.column + 1, ..oldv.st };
                assert(lex_from(oldv.input, oldv.pos, oldv.st, oldv.tokens) == lex_escape(
                    oldv.input,
                    oldv.pos,
                    stesc,
                    oldv.tokens,
                    oldv.input[oldv.pos],
                ));
                assert(lex_escape(oldv.input, oldv.pos, stesc, oldv.tokens, oldv.input[oldv.pos])
                    == lex_from(self@.input, self@.pos, self@.st, self@.tokens));
            }
            return Ok(());
        }
        if c == 102 {
            self.string_buffer.push(12);
            self.pos = self.pos + 1;
            proof {
                reveal(lex_from);
                reveal(lex_escape);
                let oldv = old(self)@;
                let stesc = LexSt { escaped: false, column: oldv.st.column + 1, ..oldv.st };
                assert(lex_from(oldv.input, oldv.pos, oldv.st, oldv.tokens) == lex_escape(
                    oldv.input,
                    oldv.pos,
                    stesc,
                    oldv.tokens,
                    oldv.input[oldv.pos],
                ));
                assert(lex_escape(oldv.input, oldv.pos, stesc, oldv.tokens, oldv.input[oldv.pos])
                    == lex_from(self@.input, self@.pos, self@.st, self@.tokens));
            }
            return Ok(());
        }
        if c == 48 {
            self.string_buffer.push(0);
            self.pos = self.pos + 1;
            proof {
                reveal(lex_from);
                reveal(lex_escape);
                let oldv = old(self)@;
                let stesc = LexSt { escaped: false, column: oldv.st.column + 1, ..oldv.st };
                assert(lex_from(oldv.input, oldv.pos, oldv.st, oldv.tokens) == lex_escape(
                    oldv.input,
                    oldv.pos,
                    stesc,
                    oldv.tokens,
                    oldv.input[oldv.pos],
                ));
                assert(lex_escape(oldv.input, oldv.pos, stesc, oldv.tokens, oldv.input[oldv.pos])
                    == lex_from(self@.input, self@.pos, self@.st, self@.tokens));
            }
            return Ok(());
        }
        if c == 120 {
            if len - self.pos <= 2 {
                let err = LexError {
                    kind: LexErrorKind::BadEscape,
                    line: self.line_number,
                    column: self.column_number,
                };
            proof {
                reveal(lex_from);
                reveal(lex_escape);
                let oldv = old(self)@;
                let stesc = LexSt { escaped: false, column: oldv.st.column + 1, ..oldv.st };
                assert(lex_from(oldv.input, oldv.pos, oldv.st, oldv.tokens) == lex_escape(
                    oldv.input,
                    oldv.pos,
                    stesc,
                    oldv.tokens,
                    oldv.input[oldv.pos],
                ));
                assert(lex_escape(oldv.input, oldv.pos, stesc, oldv.tokens, oldv.input[oldv.pos])
                    == Err::<Seq<TokenV>, LexError>(err));
            }
                return Err(err);
            }
            let a = self.input[self.pos + 1];
            let b = self.input[self.pos + 2];
            let v: u64 = match (hex_v(a), hex_v(b)) {
                (Some(x), Some(y)) => (x as u64) * 16 + (y as u64),
                _ => 0,
            };
            proof {
                assert(v as nat == esc_hex2(a, b));
            }
            push_utf8(&mut self.string_buffer, v);
            self.column_number = self.column_number + 2;
            self.pos = self.pos + 3;
            proof {
                reveal(lex_from);
                reveal(lex_escape);
                let oldv = old(self)@;
                let stesc = LexSt { escaped: false, column: oldv.st.column + 1, ..oldv.st };
                assert(lex_from(oldv.input, oldv.pos, oldv.st, oldv.tokens) == lex_escape(
                    oldv.input,
                    oldv.pos,
                    stesc,
                    oldv.tokens,
                    oldv.input[oldv.pos],
                ));
                assert(lex_escape(oldv.input, oldv.pos, stesc, oldv.tokens, oldv.input[oldv.pos])
                    == lex_from(self@.input, self@.pos, self@.st, self@.tokens));
            }
            return Ok(());
        }
        if c == 117 {
            if len - self.pos <= 4 {
                let err = LexError {
                    kind: LexErrorKind::BadEscape,
                    line: self.line_number,
                    column: self.column_number,
                };
            proof {
                reveal(lex_from);
                reveal(lex_escape);
                let oldv = old(self)@;
                let stesc = LexSt { escaped: false, column: oldv.st.column + 1, ..oldv.st };
                assert(lex_from(oldv.input, oldv.pos, oldv.st, oldv.tokens) == lex_escape(
                    oldv.input,
                    oldv.pos,
                    stesc,
                    oldv.tokens,
                    oldv.input[oldv.pos],
                ));
                assert(lex_escape(oldv.input, oldv.pos, stesc, oldv.tokens, oldv.input[oldv.pos])
                    == Err::<Seq<TokenV>, LexError>(err));
            }
                return Err(err);
            }
            let a = self.input[self.pos + 1];
            let b = self.input[self.pos + 2];
            let cc = self.input[self.pos + 3];
            let dd = self.input[self.pos + 4];
            let v: u64 = match (hex_v(a), hex_v(b), hex_v(cc), hex_v(dd)) {
                (Some(x), Some(y), Some(z), Some(w)) => (((x as u64) * 16 + (y as u64)) * 16 + (
                z as u64)) * 16 + (w as u64),
                _ => 0,
            };
            proof {
                assert(v as nat == esc_hex4(a, b, cc, dd));
            }
            if 0xd800 <= v && v < 0xe000 {
                let err = LexError {
                    kind: LexErrorKind::BadScalar,
                    line: self.line_number,
                    column: self.column_number + 4,
                };
            proof {
                reveal(lex_from);
                reveal(lex_escape);
                let oldv = old(self)@;
                let stesc = LexSt { escaped: false, column: oldv.st.column + 1, ..oldv.st };
                assert(lex_from(oldv.input, oldv.pos, oldv.st, oldv.tokens) == lex_escape(
                    oldv.input,
                    oldv.pos,
                    stesc,
                    oldv.tokens,
                    oldv.input[oldv.pos],
                ));
                assert(lex_escape(oldv.input, oldv.pos, stesc, oldv.tokens, oldv.input[oldv.pos])
                    == Err::<Seq<TokenV>, LexError>(err));
            }
                return Err(err);
            }
            push_utf8(&mut self.string_buffer, v);
            self.column_number = self.column_number + 4;
            self.pos = self.pos + 5;
            proof {
                reveal(lex_from);
                reveal(lex_escape);
                let oldv = old(self)@;
                let stesc = LexSt { escaped: false, column: oldv.st.column + 1, ..oldv.st };
                assert(lex_from(oldv.input, oldv.pos, oldv.st, oldv.tokens) == lex_escape(
                    oldv.input,
                    oldv.pos,
                    stesc,
                    oldv.tokens,
                    oldv.input[oldv.pos],
                ));
                assert(lex_escape(oldv.input, oldv.pos, stesc, oldv.tokens, oldv.input[oldv.pos])
                    == lex_from(self@.input, self@.pos, self@.st, self@.tokens));
            }
            return Ok(());
        }
        if c == 39 && matches!(self.string_start, Some(StringType::SingleQuote)) {
            self.string_buffer.push(39);
            self.pos = self.pos + 1;
            proof {
                reveal(lex_from);
                reveal(lex_escape);
                let oldv = old(self)@;
                let stesc = LexSt { escaped: false, column: oldv.st.column + 1, ..oldv.st };
                assert(lex_from(oldv.input, oldv.pos, oldv.st, oldv.tokens) == lex_escape(
                    oldv.input,
                    oldv.pos,
                    stesc,
                    oldv.tokens,
                    oldv.input[oldv.pos],
                ));
                assert(lex_escape(oldv.input, oldv.pos, stesc, oldv.tokens, oldv.input[oldv.pos])
                    == lex_from(self@.input, self@.pos, self@.st, self@.tokens));
            }
            return Ok(());
        }
        if c == 34 && matches!(self.string_start, Some(StringType::DoubleQuote)) {
            self.string_buffer.push(34);
            self.pos = self.pos + 1;
            proof {
                reveal(lex_from);
                reveal(lex_escape);
                let oldv = old(self)@;
                let stesc = LexSt { escaped: false, column: oldv.st.column + 1, ..oldv.st };
                assert(lex_from(oldv.input, oldv.pos, oldv.st, oldv.tokens) == lex_escape(
                    oldv.input,
                    oldv.pos,
                    stesc,
                    oldv.tokens,
                    oldv.input[oldv.pos],
                ));
                assert(lex_escape(oldv.input, oldv.pos, stesc, oldv.tokens, oldv.input[oldv.pos])
                    == lex_from(self@.input, self@.pos, self@.st, self@.tokens));
            }
            return Ok(());
        }
        let err = LexError {
            kind: LexErrorKind::BadEscape,
            line: self.line_number,
            column: self.column_number,
        };
            proof {
                reveal(lex_from);
                reveal(lex_escape);
                let oldv = old(self)@;
                let stesc = LexSt { escaped: false, column: oldv.st.column + 1, ..oldv.st };
                assert(lex_from(oldv.input, oldv.pos, oldv.st, oldv.tokens) == lex_escape(
                    oldv.input,
                    oldv.pos,
                    stesc,
                    oldv.tokens,
                    oldv.input[oldv.pos],
                ));
                assert(lex_escape(oldv.input, oldv.pos, stesc, oldv.tokens, oldv.input[oldv.pos])
                    == Err::<Seq<TokenV>, LexError>(err));
            }
        Err(err)
    }

    /// One byte inside a comment.
    #[verifier::rlimit(100)]
    fn step_comment(&mut self) -> (r: Result<(), LexError>)
        requires
            lexer_inv(old(self)@),
            old(self)@.pos < old(self)@.input.len(),
            !old(self)@.st.escaped,
            old(self)@.st.comment_kind is Some,
        ensures
            match r {
                Ok(()) => lexer_inv(final(self)@) && final(self)@.input == old(self)@.input
                    && final(self)@.pos > old(self)@.pos && lex_from(
                    old(self)@.input,
                    old(self)@.pos,
                    old(self)@.st,
                    old(self)@.tokens,
                ) == lex_from(
                    final(self)@.input,
                    final(self)@.pos,
                    final(self)@.st,
                    final(self)@.tokens,
                ),
                Err(e) => lex_from(
                    old(self)@.input,
                    old(self)@.pos,
                    old(self)@.st,
                    old(self)@.tokens,
                ) == Err::<Seq<TokenV>, LexError>(e),
            },
    {
        let c = self.input[self.pos];
        self.column_number = self.column_number + 1;
        let len = self.input.len();
        if c == 10 && matches!(self.current_comment, Some(CommentType::SingleLineComment)) {
            let b = dup_bytes_local(&self.comment_buffer);
            self.comment_buffer = Vec::new();
            self.current_comment = None;
            let t = Token::new(TokenData::TComment(b), self.line_number, self.column_number);
            self.tokens.push(t);
            self.pos = self.pos + 1;
            proof {
                assert(self@.st.comment =~= Seq::<u8>::empty());
                assert(self@.tokens =~= old(self)@.tokens.push(
                    tok_at(
                        LexSt { column: old(self)@.st.column + 1, ..old(self)@.st },
                        TokenDataV::TComment(old(self)@.st.comment),
                    ),
                ));
            }
            proof {
                reveal(lex_from);
                let oldv = old(self)@;
                assert(lex_from(oldv.input, oldv.pos, oldv.st, oldv.tokens) == lex_from(
                    self@.input,
                    self@.pos,
                    self@.st,
                    self@.tokens,
                ));
            }
            return Ok(());
        }
        if c == 42 && matches!(self.current_comment, Some(CommentType::MultiLineComment))
            && self.pos + 1 < len && self.input[self.pos + 1] == 47 {
            let b = dup_bytes_local(&self.comment_buffer);
            self.comment_buffer = Vec::new();
            self.current_comment = None;
            let t = Token::new(TokenData::TComment(b), self.line_number, self.column_number);
            self.tokens.push(t);
            self.pos = self.pos + 2;
            proof {
                assert(self@.st.comment =~= Seq::<u8>::empty());
                assert(self@.tokens =~= old(self)@.tokens.push(
                    tok_at(
                        LexSt { column: old(self)@.st.column + 1, ..old(self)@.st },
                        TokenDataV::TComment(old(self)@.st.comment),
                    ),
                ));
            }
            proof {
                reveal(lex_from);
                let oldv = old(self)@;
                assert(lex_from(oldv.input, oldv.pos, oldv.st, oldv.tokens) == lex_from(
                    self@.input,
                    self@.pos,
                    self@.st,
                    self@.tokens,
                ));
            }
            return Ok(());
        }
        self.comment_buffer.push(c);
        self.pos = self.pos + 1;
            proof {
                reveal(lex_from);
                let oldv = old(self)@;
                assert(lex_from(oldv.input, oldv.pos, oldv.st, oldv.tokens) == lex_from(
                    self@.input,
                    self@.pos,
                    self@.st,
                    self@.tokens,
                ));
            }
        Ok(())
    }

    /// Close the current string literal: emit its token and leave string
    /// mode.
    fn emit_string_token(&mut self)
        requires
            old(self)@.st.string_start is Some,
        ensures
            final(self)@ == (LexerV {
                tokens: old(self)@.tokens.push(
                    tok_at(old(self)@.st, TokenDataV::TString(old(self)@.st.string)),
                ),
                st: LexSt { string: Seq::empty(), string_start: None, ..old(self)@.st },
                input: old(self)@.input,
                pos: old(self)@.pos,
            }),
    {
        let b = dup_bytes_local(&self.string_buffer);
        self.string_buffer = Vec::new();
        self.string_start = None;
        let t = Token::new(TokenData::TString(b), self.line_number, self.column_number);
        self.tokens.push(t);
        proof {
            assert(self@.st.string =~= Seq::<u8>::empty());
            assert(self@.tokens =~= old(self)@.tokens.push(
                tok_at(old(self)@.st, TokenDataV::TString(old(self)@.st.string)),
            ));
        }
    }

    /// One byte inside a string literal.
    #[verifier::rlimit(100)]
    fn step_string(&mut self) -> (r: Result<(), LexError>)
        requires
            lexer_inv(old(self)@),
            old(self)@.pos < old(self)@.input.len(),
            !old(self)@.st.escaped,
            old(self)@.st.comment_kind is None,
            old(self)@.st.string_start is Some,
        ensures
            match r {
                Ok(()) => lexer_inv(final(self)@) && final(self)@.input == old(self)@.input
                    && final(self)@.pos > old(self)@.pos && lex_from(
                    old(self)@.input,
                    old(self)@.pos,
                    old(self)@.st,
                    old(self)@.tokens,
                ) == lex_from(
                    final(self)@.input,
                    final(self)@.pos,
                    final(self)@.st,
                    final(self)@.tokens,
                ),
                Err(e) => lex_from(
                    old(self)@.input,
                    old(self)@.pos,
                    old(self)@.st,
                    old(self)@.tokens,
                ) == Err::<Seq<TokenV>, LexError>(e),
            },
    {
        let c = self.input[self.pos];
        let len = self.input.len();
        proof {
            assert(self@.input.len() == len);
        }
        self.column_number = self.column_number + 1;
        if c == 34 && matches!(self.string_start, Some(StringType::DoubleQuote)) {
            self.emit_string_token();
            self.pos = self.pos + 1;
            proof {
                let oldv = old(self)@;
                lemma_string_close(oldv.input, oldv.pos, oldv.st, oldv.tokens);
            }
            return Ok(());
        }
        if c == 39 && matches!(self.string_start, Some(StringType::SingleQuote)) {
            self.emit_string_token();
            self.pos = self.pos + 1;
            proof {
                let oldv = old(self)@;
                lemma_string_close(oldv.input, oldv.pos, oldv.st, oldv.tokens);
            }
            return Ok(());
        }
        if c == 92 {
            self.escaped = true;
            self.pos = self.pos + 1;
            proof {
                let oldv = old(self)@;
                lemma_string_backslash(oldv.input, oldv.pos, oldv.st, oldv.tokens);
            }
            return Ok(());
        }
        self.string_buffer.push(c);
        self.pos = self.pos + 1;
        proof {
            let oldv = old(self)@;
            lemma_string_push(oldv.input, oldv.pos, oldv.st, oldv.tokens);
        }
        Ok(())
    }

    /// One byte outside of any string or comment: literals start or grow
    /// here; anything else is a symbol or identifier byte.
    #[verifier::rlimit(100)]
    fn step_plain(&mut self) -> (r: Result<(), LexError>)
        requires
            lexer_inv(old(self)@),
            old(self)@.pos < old(self)@.input.len(),
            !old(self)@.st.escaped,
            old(self)@.st.comment_kind is None,
            old(self)@.st.string_start is None,
        ensures
            match r {
                Ok(()) => lexer_inv(final(self)@) && final(self)@.input == old(self)@.input
                    && final(self)@.pos > old(self)@.pos && lex_from(
                    old(self)@.input,
                    old(self)@.pos,
                    old(self)@.st,
                    old(self)@.tokens,
                ) == lex_from(
                    final(self)@.input,
                    final(self)@.pos,
                    final(self)@.st,
                    final(self)@.tokens,
                ),
                Err(e) => lex_from(
                    old(self)@.input,
                    old(self)@.pos,
                    old(self)@.st,
                    old(self)@.tokens,
                ) == Err::<Seq<TokenV>, LexError>(e),
            },
    {
        let c = self.input[self.pos];
        let len = self.input.len();
        if c == 34 {
            self.column_number = self.column_number + 1;
            self.string_start = Some(StringType::DoubleQuote);
            self.pos = self.pos + 1;
            proof {
                reveal(lex_from);
                let oldv = old(self)@;
                assert(lex_from(oldv.input, oldv.pos, oldv.st, oldv.tokens) == lex_from(
                    self@.input,
                    self@.pos,
                    self@.st,
                    self@.tokens,
                ));
            }
            return Ok(());
        }
        if c == 48 && self.pos + 1 < len && self.input[self.pos + 1] == 120 {
            self.column_number = self.column_number + 1;
            self.current_number = Some(NumberType::HexadecimalNumber);
            self.pos = self.pos + 2;
            proof {
                reveal(lex_from);
                let oldv = old(self)@;
                assert(lex_from(oldv.input, oldv.pos, oldv.st, oldv.tokens) == lex_from(
                    self@.input,
                    self@.pos,
                    self@.st,
                    self@.tokens,
                ));
            }
            return Ok(());
        }
        if c == 48 && self.ident_buffer.len() == 0 && self.current_number.is_none() {
            self.column_number = self.column_number + 1;
            self.num_buffer.push(c);
            self.current_number = Some(NumberType::OctalNumber);
            self.pos = self.pos + 1;
            proof {
                reveal(lex_from);
                let oldv = old(self)@;
                assert(lex_from(oldv.input, oldv.pos, oldv.st, oldv.tokens) == lex_from(
                    self@.input,
                    self@.pos,
                    self@.st,
                    self@.tokens,
                ));
            }
            return Ok(());
        }
        if 48 <= c && c <= 55 && matches!(self.current_number, Some(NumberType::OctalNumber)) {
            self.column_number = self.column_number + 1;
            self.num_buffer.push(c);
            self.pos = self.pos + 1;
            proof {
                reveal(lex_from);
                let oldv = old(self)@;
                assert(lex_from(oldv.input, oldv.pos, oldv.st, oldv.tokens) == lex_from(
                    self@.input,
                    self@.pos,
                    self@.st,
                    self@.tokens,
                ));
            }
            return Ok(());
        }
        if (c == 56 || c == 57) && matches!(self.current_number, Some(NumberType::OctalNumber)) {
            self.column_number = self.column_number + 1;
            self.num_buffer.push(c);
            self.current_number = Some(NumberType::DecimalNumber);
            self.pos = self.pos + 1;
            proof {
                reveal(lex_from);
                let oldv = old(self)@;
                assert(lex_from(oldv.input, oldv.pos, oldv.st, oldv.tokens) == lex_from(
                    self@.input,
                    self@.pos,
                    self@.st,
                    self@.tokens,
                ));
            }
            return Ok(());
        }
        if (48 <= c && c <= 57 || 65 <= c && c <= 70 || 97 <= c && c <= 102) && matches!(
            self.current_number,
            Some(NumberType::HexadecimalNumber),
        ) {
            self.column_number = self.column_number + 1;
            self.num_buffer.push(c);
            self.pos = self.pos + 1;
            proof {
                reveal(lex_from);
                let oldv = old(self)@;
                assert(lex_from(oldv.input, oldv.pos, oldv.st, oldv.tokens) == lex_from(
                    self@.input,
                    self@.pos,
                    self@.st,
                    self@.tokens,
                ));
            }
            return Ok(());
        }
        if 48 <= c && c <= 57 && self.ident_buffer.len() == 0 {
            self.column_number = self.column_number + 1;
            self.num_buffer.push(c);
            self.current_number = Some(NumberType::DecimalNumber);
            self.pos = self.pos + 1;
            proof {
                reveal(lex_from);
                let oldv = old(self)@;
                assert(lex_from(oldv.input, oldv.pos, oldv.st, oldv.tokens) == lex_from(
                    self@.input,
                    self@.pos,
                    self@.st,
                    self@.tokens,
                ));
            }
            return Ok(());
        }
        if c == 39 {
            self.column_number = self.column_number + 1;
            self.string_start = Some(StringType::SingleQuote);
            self.pos = self.pos + 1;
            proof {
                reveal(lex_from);
                let oldv = old(self)@;
                assert(lex_from(oldv.input, oldv.pos, oldv.st, oldv.tokens) == lex_from(
                    self@.input,
                    self@.pos,
                    self@.st,
                    self@.tokens,
                ));
            }
            return Ok(());
        }
        if c == 46 && self.current_number.is_some() && !has_dot(&self.num_buffer) {
            self.column_number = self.column_number + 1;
            self.num_buffer.push(c);
            self.current_number = Some(NumberType::DecimalNumber);
            self.pos = self.pos + 1;
            proof {
                reveal(lex_from);
                let oldv = old(self)@;
                assert(lex_from(oldv.input, oldv.pos, oldv.st, oldv.tokens) == lex_from(
                    self@.input,
                    self@.pos,
                    self@.st,
                    self@.tokens,
                ));
            }
            return Ok(());
        }
        self.step_symbol()
    }

    /// A symbol, operator, whitespace or identifier byte.
    #[verifier::rlimit(100)]
    fn step_symbol(&mut self) -> (r: Result<(), LexError>)
        requires
            lexer_inv(old(self)@),
            old(self)@.pos < old(self)@.input.len(),
            !old(self)@.st.escaped,
            old(self)@.st.comment_kind is None,
            old(self)@.st.string_start is None,
            ({
                let input = old(self)@.input;
                let pos = old(self)@.pos;
                let st = old(self)@.st;
                let c = input[pos];
                &&& c != 34
                &&& c != 39
                &&& !(c == 48 && pos + 1 < input.len() && input[pos + 1] == 120)
                &&& !(c == 48 && st.ident.len() == 0 && st.number_kind is None)
                &&& !(48 <= c <= 55 && st.number_kind == Some(NumberType::OctalNumber))
                &&& !((c == 56 || c == 57) && st.number_kind == Some(NumberType::OctalNumber))
                &&& !((48 <= c <= 57 || 65 <= c <= 70 || 97 <= c <= 102) && st.number_kind == Some(
                    NumberType::HexadecimalNumber,
                ))
                &&& !(48 <= c <= 57 && st.ident.len() == 0)
                &&& !(c == 46 && st.number_kind is Some && !st.num.contains(46))
            }),
        ensures
            match r {
                Ok(()) => lexer_inv(final(self)@) && final(self)@.input == old(self)@.input
                    && final(self)@.pos > old(self)@.pos && lex_from(
                    old(self)@.input,
                    old(self)@.pos,
                    old(self)@.st,
                    old(self)@.tokens,
                ) == lex_from(
                    final(self)@.input,
                    final(self)@.pos,
                    final(self)@.st,
                    final(self)@.tokens,
                ),
                Err(e) => lex_from(
                    old(self)@.input,
                    old(self)@.pos,
                    old(self)@.st,
                    old(self)@.tokens,
                ) == Err::<Seq<TokenV>, LexError>(e),
            },
    {
        let c = self.input[self.pos];
        self.column_number = self.column_number + 1;
        let len = self.input.len();
        if c == 59 || c == 58 || c == 46 || c == 44 || c == 40 || c == 41 || c == 123 || c == 125
            || c == 91 || c == 93 || c == 63 {
            let d = if c == 59 {
                TokenData::TSemicolon
            } else if c == 58 {
                TokenData::TColon
            } else if c == 46 {
                TokenData::TDot
            } else if c == 44 {
                TokenData::TComma
            } else if c == 40 {
                TokenData::TOpenParen
            } else if c == 41 {
                TokenData::TCloseParen
            } else if c == 123 {
                TokenData::TOpenBlock
            } else if c == 125 {
                TokenData::TCloseBlock
            } else if c == 91 {
                TokenData::TOpenArray
            } else if c == 93 {
                TokenData::TCloseArray
            } else {
                TokenData::TQuestion
            };
            let ghost dv = d@;
            return match self.flush_emit(d) {
                Ok(()) => {
                    self.pos = self.pos + 1;
                    proof {
                        let oldv = old(self)@;
                        lemma_symbol_emit(oldv.input, oldv.pos, oldv.st, oldv.tokens, dv, 1);
                    }
                    Ok(())
                },
                Err(e) => {
                    proof {
                        let oldv = old(self)@;
                        lemma_symbol_emit(oldv.input, oldv.pos, oldv.st, oldv.tokens, dv, 1);
                    }
                    Err(e)
                },
            };
        }
        if c == 47 && self.pos + 1 < len && self.input[self.pos + 1] == 47 {
            self.current_comment = Some(CommentType::SingleLineComment);
            self.pos = self.pos + 2;
            proof {
                let oldv = old(self)@;
                lemma_symbol_comment_start(
                    oldv.input,
                    oldv.pos,
                    oldv.st,
                    oldv.tokens,
                    CommentType::SingleLineComment,
                );
            }
            return Ok(());
        }
        if c == 47 && self.pos + 1 < len && self.input[self.pos + 1] == 42 {
            self.current_comment = Some(CommentType::MultiLineComment);
            self.pos = self.pos + 2;
            proof {
                let oldv = old(self)@;
                lemma_symbol_comment_start(
                    oldv.input,
                    oldv.pos,
                    oldv.st,
                    oldv.tokens,
                    CommentType::MultiLineComment,
                );
            }
            return Ok(());
        }
        if c == 47 {
            let d = TokenData::TNumOp(NumOp::OpDiv);
            let ghost dv = d@;
            return match self.flush_emit(d) {
                Ok(()) => {
                    self.pos = self.pos + 1;
                    proof {
                        let oldv = old(self)@;
                        lemma_symbol_emit(oldv.input, oldv.pos, oldv.st, oldv.tokens, dv, 1);
                    }
                    Ok(())
                },
                Err(e) => {
                    proof {
                        let oldv = old(self)@;
                        lemma_symbol_emit(oldv.input, oldv.pos, oldv.st, oldv.tokens, dv, 1);
                    }
                    Err(e)
                },
            };
        }
        if c == 42 {
            let d = TokenData::TNumOp(NumOp::OpMul);
            let ghost dv = d@;
            return match self.flush_emit(d) {
                Ok(()) => {
                    self.pos = self.pos + 1;
                    proof {
                        let oldv = old(self)@;
                        lemma_symbol_emit(oldv.input, oldv.pos, oldv.st, oldv.tokens, dv, 1);
                    }
                    Ok(())
                },
                Err(e) => {
                    proof {
                        let oldv = old(self)@;
                        lemma_symbol_emit(oldv.input, oldv.pos, oldv.st, oldv.tokens, dv, 1);
                    }
                    Err(e)
                },
            };
        }
        if c == 43 {
            let d = TokenData::TNumOp(NumOp::OpAdd);
            let ghost dv = d@;
            return match self.flush_emit(d) {
                Ok(()) => {
                    self.pos = self.pos + 1;
                    proof {
                        let oldv = old(self)@;
                        lemma_symbol_emit(oldv.input, oldv.pos, oldv.st, oldv.tokens, dv, 1);
                    }
                    Ok(())
                },
                Err(e) => {
                    proof {
                        let oldv = old(self)@;
                        lemma_symbol_emit(oldv.input, oldv.pos, oldv.st, oldv.tokens, dv, 1);
                    }
                    Err(e)
                },
            };
        }
        if c == 45 {
            let d = TokenData::TNumOp(NumOp::OpSub);
            let ghost dv = d@;
            return match self.flush_emit(d) {
                Ok(()) => {
                    self.pos = self.pos + 1;
                    proof {
                        let oldv = old(self)@;
                        lemma_symbol_emit(oldv.input, oldv.pos, oldv.st, oldv.tokens, dv, 1);
                    }
                    Ok(())
                },
                Err(e) => {
                    proof {
                        let oldv = old(self)@;
                        lemma_symbol_emit(oldv.input, oldv.pos, oldv.st, oldv.tokens, dv, 1);
                    }
                    Err(e)
                },
            };
        }
        if c == 37 {
            let d = TokenData::TNumOp(NumOp::OpMod);
            let ghost dv = d@;
            return match self.flush_emit(d) {
                Ok(()) => {
                    self.pos = self.pos + 1;
                    proof {
                        let oldv = old(self)@;
                        lemma_symbol_emit(oldv.input, oldv.pos, oldv.st, oldv.tokens, dv, 1);
                    }
                    Ok(())
                },
                Err(e) => {
                    proof {
                        let oldv = old(self)@;
                        lemma_symbol_emit(oldv.input, oldv.pos, oldv.st, oldv.tokens, dv, 1);
                    }
                    Err(e)
                },
            };
        }
        if c == 124 && self.pos + 1 < len && self.input[self.pos + 1] == 124 {
            let d = TokenData::TLogOp(LogOp::LogOr);
            let ghost dv = d@;
            return match self.flush_emit(d) {
                Ok(()) => {
                    self.pos = self.pos + 2;
                    proof {
                        let oldv = old(self)@;
                        lemma_symbol_emit(oldv.input, oldv.pos, oldv.st, oldv.tokens, dv, 2);
                    }
                    Ok(())
                },
                Err(e) => {
                    proof {
                        let oldv = old(self)@;
                        lemma_symbol_emit(oldv.input, oldv.pos, oldv.st, oldv.tokens, dv, 2);
                    }
                    Err(e)
                },
            };
        }
        if c == 124 {
            let d = TokenData::TBitOp(BitOp::BitOr);
            let ghost dv = d@;
            return match self.flush_emit(d) {
                Ok(()) => {
                    self.pos = self.pos + 1;
                    proof {
                        let oldv = old(self)@;
                        lemma_symbol_emit(oldv.input, oldv.pos, oldv.st, oldv.tokens, dv, 1);
                    }
                    Ok(())
                },
                Err(e) => {
                    proof {
                        let oldv = old(self)@;
                        lemma_symbol_emit(oldv.input, oldv.pos, oldv.st, oldv.tokens, dv, 1);
                    }
                    Err(e)
                },
            };
        }
        if c == 38 && self.pos + 1 < len && self.input[self.pos + 1] == 38 {
            let d = TokenData::TLogOp(LogOp::LogAnd);
            let ghost dv = d@;
            return match self.flush_emit(d) {
                Ok(()) => {
                    self.pos = self.pos + 2;
                    proof {
                        let oldv = old(self)@;
                        lemma_symbol_emit(oldv.input, oldv.pos, oldv.st, oldv.tokens, dv, 2);
                    }
                    Ok(())
                },
                Err(e) => {
                    proof {
                        let oldv = old(self)@;
                        lemma_symbol_emit(oldv.input, oldv.pos, oldv.st, oldv.tokens, dv, 2);
                    }
                    Err(e)
                },
            };
        }
        if c == 38 {
            let d = TokenData::TBitOp(BitOp::BitAnd);
            let ghost dv = d@;
            return match self.flush_emit(d) {
                Ok(()) => {
                    self.pos = self.pos + 1;
                    proof {
                        let oldv = old(self)@;
                        lemma_symbol_emit(oldv.input, oldv.pos, oldv.st, oldv.tokens, dv, 1);
                    }
                    Ok(())
                },
                Err(e) => {
                    proof {
                        let oldv = old(self)@;
                        lemma_symbol_emit(oldv.input, oldv.pos, oldv.st, oldv.tokens, dv, 1);
                    }
                    Err(e)
                },
            };
        }
        if c == 94 {
            let d = TokenData::TBitOp(BitOp::BitXor);
            let ghost dv = d@;
            return match self.flush_emit(d) {
                Ok(()) => {
                    self.pos = self.pos + 1;
                    proof {
                        let oldv = old(self)@;
                        lemma_symbol_emit(oldv.input, oldv.pos, oldv.st, oldv.tokens, dv, 1);
                    }
                    Ok(())
                },
                Err(e) => {
                    proof {
                        let oldv = old(self)@;
                        lemma_symbol_emit(oldv.input, oldv.pos, oldv.st, oldv.tokens, dv, 1);
                    }
                    Err(e)
                },
            };
        }
        if c == 61 && self.pos + 1 < len && self.input[self.pos + 1] == 62 {
            let d = TokenData::TArrow;
            let ghost dv = d@;
            return match self.flush_emit(d) {
                Ok(()) => {
                    self.pos = self.pos + 2;
                    proof {
                        let oldv = old(self)@;
                        lemma_symbol_emit(oldv.input, oldv.pos, oldv.st, oldv.tokens, dv, 2);
                    }
                    Ok(())
                },
                Err(e) => {
                    proof {
                        let oldv = old(self)@;
                        lemma_symbol_emit(oldv.input, oldv.pos, oldv.st, oldv.tokens, dv, 2);
                    }
                    Err(e)
                },
            };
        }
        if c == 61 && self.pos + 1 < len && self.input[self.pos + 1] == 61 {
            let d = TokenData::TCompOp(CompOp::CompEqual);
            let ghost dv = d@;
            return match self.flush_emit(d) {
                Ok(()) => {
                    self.pos = self.pos + 2;
                    proof {
                        let oldv = old(self)@;
                        lemma_symbol_emit(oldv.input, oldv.pos, oldv.st, oldv.tokens, dv, 2);
                    }
                    Ok(())
                },
                Err(e) => {
                    proof {
                        let oldv = old(self)@;
                        lemma_symbol_emit(oldv.input, oldv.pos, oldv.st, oldv.tokens, dv, 2);
                    }
                    Err(e)
                },
            };
        }
        if c == 61 {
            let d = TokenData::TEqual;
            let ghost dv = d@;
            return match self.flush_emit(d) {
                Ok(()) => {
                    self.pos = self.pos + 1;
                    proof {
                        let oldv = old(self)@;
                        lemma_symbol_emit(oldv.input, oldv.pos, oldv.st, oldv.tokens, dv, 1);
                    }
                    Ok(())
                },
                Err(e) => {
                    proof {
                        let oldv = old(self)@;
                        lemma_symbol_emit(oldv.input, oldv.pos, oldv.st, oldv.tokens, dv, 1);
                    }
                    Err(e)
                },
            };
        }
        if c == 60 && self.pos + 1 < len && self.input[self.pos + 1] == 61 {
            let d = TokenData::TCompOp(CompOp::CompLessThanOrEqual);
            let ghost dv = d@;
            return match self.flush_emit(d) {
                Ok(()) => {
                    self.pos = self.pos + 2;
                    proof {
                        let oldv = old(self)@;
                        lemma_symbol_emit(oldv.input, oldv.pos, oldv.st, oldv.tokens, dv, 2);
                    }
                    Ok(())
                },
                Err(e) => {
                    proof {
                        let oldv = old(self)@;
                        lemma_symbol_emit(oldv.input, oldv.pos, oldv.st, oldv.tokens, dv, 2);
                    }
                    Err(e)
                },
            };
        }
        if c == 60 {
            let d = TokenData::TCompOp(CompOp::CompLessThan);
            let ghost dv = d@;
            return match self.flush_emit(d) {
                Ok(()) => {
                    self.pos = self.pos + 1;
                    proof {
                        let oldv = old(self)@;
                        lemma_symbol_emit(oldv.input, oldv.pos, oldv.st, oldv.tokens, dv, 1);
                    }
                    Ok(())
                },
                Err(e) => {
                    proof {
                        let oldv = old(self)@;
                        lemma_symbol_emit(oldv.input, oldv.pos, oldv.st, oldv.tokens, dv, 1);
                    }
                    Err(e)
                },
            };
        }
        if c == 62 && self.pos + 1 < len && self.input[self.pos + 1] == 61 {
            let d = TokenData::TCompOp(CompOp::CompGreaterThanOrEqual);
            let ghost dv = d@;
            return match self.flush_emit(d) {
                Ok(()) => {
                    self.pos = self.pos + 2;
                    proof {
                        let oldv = old(self)@;
                        lemma_symbol_emit(oldv.input, oldv.pos, oldv.st, oldv.tokens, dv, 2);
                    }
                    Ok(())
                },
                Err(e) => {
                    proof {
                        let oldv = old(self)@;
                        lemma_symbol_emit(oldv.input, oldv.pos, oldv.st, oldv.tokens, dv, 2);
                    }
                    Err(e)
                },
            };
        }
        if c == 62 {
            let d = TokenData::TCompOp(CompOp::CompGreaterThan);
            let ghost dv = d@;
            return match self.flush_emit(d) {
                Ok(()) => {
                    self.pos = self.pos + 1;
                    proof {
                        let oldv = old(self)@;
                        lemma_symbol_emit(oldv.input, oldv.pos, oldv.st, oldv.tokens, dv, 1);
                    }
                    Ok(())
                },
                Err(e) => {
                    proof {
                        let oldv = old(self)@;
                        lemma_symbol_emit(oldv.input, oldv.pos, oldv.st, oldv.tokens, dv, 1);
                    }
                    Err(e)
                },
            };
        }
        if c == 33 && self.pos + 1 < len && self.input[self.pos + 1] == 61 {
            let d = TokenData::TCompOp(CompOp::CompNotEqual);
            let ghost dv = d@;
            return match self.flush_emit(d) {
                Ok(()) => {
                    self.pos = self.pos + 2;
                    proof {
                        let oldv = old(self)@;
                        lemma_symbol_emit(oldv.input, oldv.pos, oldv.st, oldv.tokens, dv, 2);
                    }
                    Ok(())
                },
                Err(e) => {
                    proof {
                        let oldv = old(self)@;
                        lemma_symbol_emit(oldv.input, oldv.pos, oldv.st, oldv.tokens, dv, 2);
                    }
                    Err(e)
                },
            };
        }
        if c == 10 {
            return match self.clear_buffer() {
                Ok(()) => {
                    self.line_number = self.line_number + 1;
                    self.column_number = 0;
                    self.pos = self.pos + 1;
                    proof {
                        let oldv = old(self)@;
                        lemma_symbol_newline(oldv.input, oldv.pos, oldv.st, oldv.tokens);
                    }
                    Ok(())
                },
                Err(e) => {
                    proof {
                        let oldv = old(self)@;
                        lemma_symbol_newline(oldv.input, oldv.pos, oldv.st, oldv.tokens);
                    }
                    Err(e)
                },
            };
        }
        if c == 13 {
            return match self.clear_buffer() {
                Ok(()) => {
                    self.column_number = 0;
                    self.pos = self.pos + 1;
                    proof {
                        let oldv = old(self)@;
                        lemma_symbol_cr(oldv.input, oldv.pos, oldv.st, oldv.tokens);
                    }
                    Ok(())
                },
                Err(e) => {
                    proof {
                        let oldv = old(self)@;
                        lemma_symbol_cr(oldv.input, oldv.pos, oldv.st, oldv.tokens);
                    }
                    Err(e)
                },
            };
        }
        if c == 32 || c == 9 || c == 11 || c == 12 {
            return match self.clear_buffer() {
                Ok(()) => {
                    self.pos = self.pos + 1;
                    proof {
                        let oldv = old(self)@;
                        lemma_symbol_space(oldv.input, oldv.pos, oldv.st, oldv.tokens);
                    }
                    Ok(())
                },
                Err(e) => {
                    proof {
                        let oldv = old(self)@;
                        lemma_symbol_space(oldv.input, oldv.pos, oldv.st, oldv.tokens);
                    }
                    Err(e)
                },
            };
        }
        self.ident_buffer.push(c);
        self.pos = self.pos + 1;
        proof {
            let oldv = old(self)@;
            lemma_symbol_ident(oldv.input, oldv.pos, oldv.st, oldv.tokens);
        }
        Ok(())
    }

    /// Processes the input into the token list, leaving the tokens on the
    /// lexer; a fatal literal or escape stops it with its position.
    pub fn lex(&mut self) -> (r: Result<(), LexError>)
        requires
            lexer_inv(old(self)@),
        ensures
            match r {
                Ok(()) => lex_from(
                    old(self)@.input,
                    old(self)@.pos,
                    old(self)@.st,
                    old(self)@.tokens,
                ) == Ok::<Seq<TokenV>, LexError>(final(self)@.tokens),
                Err(e) => lex_from(
                    old(self)@.input,
                    old(self)@.pos,
                    old(self)@.st,
                    old(self)@.tokens,
                ) == Err::<Seq<TokenV>, LexError>(e),
            },
    {
        loop
            invariant
                lexer_inv(self@),
                self@.input == old(self)@.input,
                lex_from(old(self)@.input, old(self)@.pos, old(self)@.st, old(self)@.tokens)
                    == lex_from(self@.input, self@.pos, self@.st, self@.tokens),
            ensures
                self@.pos >= self@.input.len(),
            decreases self@.input.len() - self@.pos,
        {
            if self.pos >= self.input.len() {
                break ;
            }
            match self.step() {
                Ok(()) => {},
                Err(e) => {
                    return Err(e);
                },
            }
        }
        let ghost ex = self@;
        proof {
            assert(ex.pos >= ex.input.len());
        }
        match self.clear_buffer() {
            Ok(()) => {
                proof {
                    reveal(lex_from);
                    assert(lex_from(ex.input, ex.pos, ex.st, ex.tokens) == Ok::<
                        Seq<TokenV>,
                        LexError,
                    >(self@.tokens));
                }
                Ok(())
            },
            Err(e) => {
                proof {
                    reveal(lex_from);
                    assert(lex_from(ex.input, ex.pos, ex.st, ex.tokens) == Err::<
                        Seq<TokenV>,
                        LexError,
                    >(e));
                }
                Err(e)
            },
        }
    }

    /// Processes an input byte string into an array of tokens.
    pub fn lex_str(script: Vec<u8>) -> (r: Result<Vec<Token>, LexError>)
        requires
            script@.len() <= 0xffff_ffff_ffff_0000,
        ensures
            match r {
                Ok(toks) => lex_spec(script@) == Ok::<Seq<TokenV>, LexError>(
                    toks@.map(|i: int, t: Token| t@),
                ),
                Err(e) => lex_spec(script@) == Err::<Seq<TokenV>, LexError>(e),
            },
    {
        let mut lexer = Lexer::new(script);
        match lexer.lex() {
            Ok(()) => {
                let Lexer { tokens, .. } = lexer;
                Ok(tokens)
            },
            Err(e) => Err(e),
        }
    }
}

} // verus!
