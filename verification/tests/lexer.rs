use lib::ir::ir_lexer::{IrLexer, Token, TokenKind};

fn kinds_and_spans(src: &str) -> Vec<(TokenKind, (u32, u32))> {
    let mut lexer = IrLexer::new(src);
    let mut out = Vec::new();
    loop {
        let t = lexer.next_token();
        out.push((t.kind, t.span));
        if t.kind == TokenKind::Eof || t.kind == TokenKind::Error {
            break;
        }
    }
    out
}

#[test]
fn lexes_define_and_global_symbol() {
    let toks = kinds_and_spans("define @main");
    assert_eq!(
        toks,
        vec![(TokenKind::Define, (0, 6)), (TokenKind::GlobSym, (8, 12)), (TokenKind::Eof, (12, 12))]
    );
}

#[test]
fn lexes_registers_labels_and_punctuation() {
    let toks = kinds_and_spans("%x = br %c, #then, #else ( ) { }");
    let kinds: Vec<TokenKind> = toks.iter().map(|t| t.0).collect();
    assert_eq!(
        kinds,
        vec![
            TokenKind::Vreg,
            TokenKind::Assing,
            TokenKind::Br,
            TokenKind::Vreg,
            TokenKind::Comma,
            TokenKind::Label,
            TokenKind::Comma,
            TokenKind::Label,
            TokenKind::Lparen,
            TokenKind::Rparen,
            TokenKind::Lbrace,
            TokenKind::Rbrace,
            TokenKind::Eof,
        ]
    );
    assert_eq!(toks[0].1, (1, 2));
    assert_eq!(toks[5].1, (13, 17));
}

#[test]
fn lexes_dots_and_single_dot() {
    let toks = kinds_and_spans("... .");
    assert_eq!(toks, vec![(TokenKind::Dots, (0, 3)), (TokenKind::Dot, (4, 5)), (TokenKind::Eof, (5, 5))]);
}

#[test]
fn lexes_numbers() {
    let toks = kinds_and_spans("42 -3 1.5 7.");
    assert_eq!(
        toks,
        vec![
            (TokenKind::IntLit, (0, 2)),
            (TokenKind::IntLit, (3, 5)),
            (TokenKind::FloatLit, (6, 9)),
            (TokenKind::IntLit, (10, 11)),
            (TokenKind::Dot, (11, 12)),
            (TokenKind::Eof, (12, 12)),
        ]
    );
}

#[test]
fn lexes_string_literal_without_quotes() {
    let toks = kinds_and_spans("ascii \"Hi\" i1");
    assert_eq!(
        toks,
        vec![
            (TokenKind::Ascii, (0, 5)),
            (TokenKind::AsciiLit, (7, 9)),
            (TokenKind::I1, (11, 13)),
            (TokenKind::Eof, (13, 13)),
        ]
    );
}

#[test]
fn lexes_keywords_and_types() {
    let toks = kinds_and_spans("ret copy ceq cugt alloc store load offset data constant extern void f32 ptr");
    let kinds: Vec<TokenKind> = toks.iter().map(|t| t.0).collect();
    assert_eq!(
        kinds,
        vec![
            TokenKind::Ret,
            TokenKind::Copy,
            TokenKind::Ceq,
            TokenKind::Cugt,
            TokenKind::Alloc,
            TokenKind::Store,
            TokenKind::Load,
            TokenKind::Offset,
            TokenKind::Data,
            TokenKind::Constant,
            TokenKind::Extern,
            TokenKind::Void,
            TokenKind::F32,
            TokenKind::Ptr,
            TokenKind::Eof,
        ]
    );
}

#[test]
fn unknown_word_is_an_error() {
    let toks = kinds_and_spans("banana");
    assert_eq!(toks, vec![(TokenKind::Error, (0, 6))]);
}

#[test]
fn unknown_byte_is_an_error_that_does_not_advance() {
    let mut lexer = IrLexer::new("  $x");
    let a = lexer.next_token();
    let b = lexer.next_token();
    assert_eq!(a.kind, TokenKind::Error);
    assert_eq!(a.span, (0, 0));
    assert_eq!(b.kind, TokenKind::Error);
}

#[test]
fn peek_does_not_consume() {
    let mut lexer = IrLexer::new("ret i32");
    let p = lexer.peek_token();
    let n = lexer.next_token();
    assert_eq!(p.kind, TokenKind::Ret);
    assert_eq!(n.kind, TokenKind::Ret);
    assert_eq!(p.span, n.span);
    assert_eq!(lexer.next_token().kind, TokenKind::I32);
}

#[test]
fn token_span_as_range() {
    let t = Token::new((3, 7), TokenKind::Vreg);
    assert_eq!(t.get_span(), 3..7);
    assert_eq!(t.kind, TokenKind::Vreg);
}

#[test]
fn empty_source_is_eof() {
    let toks = kinds_and_spans("   \n\t");
    assert_eq!(toks, vec![(TokenKind::Eof, (5, 5))]);
}

#[test]
fn leading_spaces_only_move_the_first_token() {
    assert_eq!(kinds_and_spans(",")[0], (TokenKind::Comma, (0, 1)));
    assert_eq!(kinds_and_spans(" \t\n,")[0], (TokenKind::Comma, (3, 4)));
    assert_eq!(kinds_and_spans("define")[0], (TokenKind::Define, (0, 6)));
    assert_eq!(kinds_and_spans("  define")[0], (TokenKind::Define, (2, 8)));
}
