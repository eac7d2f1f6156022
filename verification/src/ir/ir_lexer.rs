//! The lexer of the textual IR: it turns the source bytes into tokens, one at a time.
//!
//! What a token is, is said by [`lex`]: from a position, spaces are skipped and the longest
//! token that starts there is read.

use vstd::prelude::*;
use vstd::string::StringSliceAdditionalSpecFns;

verus! {

/// The kind of a [`Token`].
#[derive(Debug, Clone, Copy, PartialEq, Eq, Structural)]
pub enum TokenKind {
    // keywords
    Ret,
    Define,
    Extern,
    Copy,
    Add,
    Sub,
    Mul,
    Div,
    Udiv,
    Call,
    Jmp,
    Cmp,
    Eq,
    Ne,
    Slt,
    Ult,
    Sgt,
    Ugt,
    Ceq,
    Cne,
    Cslt,
    Cult,
    Csgt,
    Cugt,
    Br,
    Data,
    Constant,
    Alloc,
    Store,
    Load,
    Offset,
    // types
    I32,
    I1,
    F32,
    Ptr,
    Str,
    Ascii,
    Void,
    // delimiters
    Dot,
    Dots,
    Comma,
    Lparen,
    Rparen,
    Lbrace,
    Rbrace,
    Assing,
    // literals
    GlobSym,
    Vreg,
    Label,
    IntLit,
    FloatLit,
    AsciiLit,
    // sentinels
    Eof,
    Error,
}

/// A token: its kind and the start and end of its text in the source.
#[derive(Debug, Clone, Copy)]
pub struct Token {
    pub span: (u32, u32),
    pub kind: TokenKind,
}

impl Token {
    /// A token of kind `kind` over the bytes `span.0..span.1` of the source.
    pub fn new(span: (u32, u32), kind: TokenKind) -> (r: Self)
        ensures
            r.span == span,
            r.kind == kind,
    {
        Token { span, kind }
    }

    /// The range of the token's text in the source.
    pub fn get_span(&self) -> (r: std::ops::Range<usize>)
        ensures
            r.start == self.span.0,
            r.end == self.span.1,
    {
        std::ops::Range { start: self.span.0 as usize, end: self.span.1 as usize }
    }
}

pub open spec fn is_space(b: u8) -> bool {
    b == 32 || b == 10 || b == 13 || b == 9
}

pub open spec fn is_digit(b: u8) -> bool {
    48 <= b <= 57
}

pub open spec fn is_alpha(b: u8) -> bool {
    (97 <= b <= 122) || (65 <= b <= 90) || b == 95
}

pub open spec fn is_alnum(b: u8) -> bool {
    is_alpha(b) || is_digit(b)
}

/// The first position from `c` on that holds no space (or the end).
pub open spec fn skip_spaces(s: Seq<u8>, c: int) -> int
    decreases s.len() - c,
{
    if 0 <= c < s.len() && is_space(s[c]) {
        skip_spaces(s, c + 1)
    } else {
        c
    }
}

/// The first position from `c` on that holds no digit (or the end).
pub open spec fn scan_digits(s: Seq<u8>, c: int) -> int
    decreases s.len() - c,
{
    if 0 <= c < s.len() && is_digit(s[c]) {
        scan_digits(s, c + 1)
    } else {
        c
    }
}

/// The first position from `c` on that holds no letter, digit or `_` (or the end).
pub open spec fn scan_alnum(s: Seq<u8>, c: int) -> int
    decreases s.len() - c,
{
    if 0 <= c < s.len() && is_alnum(s[c]) {
        scan_alnum(s, c + 1)
    } else {
        c
    }
}

/// The first position from `c` on that holds a `"` (or the end).
pub open spec fn scan_to_quote(s: Seq<u8>, c: int) -> int
    decreases s.len() - c,
{
    if 0 <= c < s.len() && s[c] != 34 {
        scan_to_quote(s, c + 1)
    } else {
        c
    }
}

/// The kind of the keyword `w`, or [`TokenKind::Error`] when `w` is none.
pub open spec fn keyword_kind(w: Seq<u8>) -> TokenKind {
    if w == seq![114, 101, 116u8] {
        TokenKind::Ret
    } else if w == seq![105, 51, 50u8] {
        TokenKind::I32
    } else if w == seq![105, 49u8] {
        TokenKind::I1
    } else if w == seq![102, 51, 50u8] {
        TokenKind::F32
    } else if w == seq![112, 116, 114u8] {
        TokenKind::Ptr
    } else if w == seq![115, 116, 114u8] {
        TokenKind::Str
    } else if w == seq![97, 115, 99, 105, 105u8] {
        TokenKind::Ascii
    } else if w == seq![118, 111, 105, 100u8] {
        TokenKind::Void
    } else if w == seq![100, 101, 102, 105, 110, 101u8] {
        TokenKind::Define
    } else if w == seq![101, 120, 116, 101, 114, 110u8] {
        TokenKind::Extern
    } else if w == seq![99, 111, 112, 121u8] {
        TokenKind::Copy
    } else if w == seq![97, 100, 100u8] {
        TokenKind::Add
    } else if w == seq![115, 117, 98u8] {
        TokenKind::Sub
    } else if w == seq![109, 117, 108u8] {
        TokenKind::Mul
    } else if w == seq![100, 105, 118u8] {
        TokenKind::Div
    } else if w == seq![117, 100, 105, 118u8] {
        TokenKind::Udiv
    } else if w == seq![99, 97, 108, 108u8] {
        TokenKind::Call
    } else if w == seq![106, 109, 112u8] {
        TokenKind::Jmp
    } else if w == seq![99, 109, 112u8] {
        TokenKind::Cmp
    } else if w == seq![101, 113u8] {
        TokenKind::Eq
    } else if w == seq![110, 101u8] {
        TokenKind::Ne
    } else if w == seq![115, 108, 116u8] {
        TokenKind::Slt
    } else if w == seq![117, 108, 116u8] {
        TokenKind::Ult
    } else if w == seq![115, 103, 116u8] {
        TokenKind::Sgt
    } else if w == seq![117, 103, 116u8] {
        TokenKind::Ugt
    } else if w == seq![99, 101, 113u8] {
        TokenKind::Ceq
    } else if w == seq![99, 110, 101u8] {
        TokenKind::Cne
    } else if w == seq![99, 115, 108, 116u8] {
        TokenKind::Cslt
    } else if w == seq![99, 117, 108, 116u8] {
        TokenKind::Cult
    } else if w == seq![99, 115, 103, 116u8] {
        TokenKind::Csgt
    } else if w == seq![99, 117, 103, 116u8] {
        TokenKind::Cugt
    } else if w == seq![98, 114u8] {
        TokenKind::Br
    } else if w == seq![100, 97, 116, 97u8] {
        TokenKind::Data
    } else if w == seq![99, 111, 110, 115, 116, 97, 110, 116u8] {
        TokenKind::Constant
    } else if w == seq![97, 108, 108, 111, 99u8] {
        TokenKind::Alloc
    } else if w == seq![115, 116, 111, 114, 101u8] {
        TokenKind::Store
    } else if w == seq![108, 111, 97, 100u8] {
        TokenKind::Load
    } else if w == seq![111, 102, 102, 115, 101, 116u8] {
        TokenKind::Offset
    } else {
        TokenKind::Error
    }
}

/// How a keyword kind is spelled in the source (`ret`, `define`, `add`, `cne`, `i32`, ...);
/// empty for the kinds that are not keywords.
pub open spec fn keyword_text(k: TokenKind) -> Seq<u8> {
    match k {
        TokenKind::Ret => seq![114, 101, 116u8],
        TokenKind::Define => seq![100, 101, 102, 105, 110, 101u8],
        TokenKind::Extern => seq![101, 120, 116, 101, 114, 110u8],
        TokenKind::Copy => seq![99, 111, 112, 121u8],
        TokenKind::Add => seq![97, 100, 100u8],
        TokenKind::Sub => seq![115, 117, 98u8],
        TokenKind::Mul => seq![109, 117, 108u8],
        TokenKind::Div => seq![100, 105, 118u8],
        TokenKind::Udiv => seq![117, 100, 105, 118u8],
        TokenKind::Call => seq![99, 97, 108, 108u8],
        TokenKind::Jmp => seq![106, 109, 112u8],
        TokenKind::Cmp => seq![99, 109, 112u8],
        TokenKind::Eq => seq![101, 113u8],
        TokenKind::Ne => seq![110, 101u8],
        TokenKind::Slt => seq![115, 108, 116u8],
        TokenKind::Ult => seq![117, 108, 116u8],
        TokenKind::Sgt => seq![115, 103, 116u8],
        TokenKind::Ugt => seq![117, 103, 116u8],
        TokenKind::Ceq => seq![99, 101, 113u8],
        TokenKind::Cne => seq![99, 110, 101u8],
        TokenKind::Cslt => seq![99, 115, 108, 116u8],
        TokenKind::Cult => seq![99, 117, 108, 116u8],
        TokenKind::Csgt => seq![99, 115, 103, 116u8],
        TokenKind::Cugt => seq![99, 117, 103, 116u8],
        TokenKind::Br => seq![98, 114u8],
        TokenKind::Data => seq![100, 97, 116, 97u8],
        TokenKind::Constant => seq![99, 111, 110, 115, 116, 97, 110, 116u8],
        TokenKind::Alloc => seq![97, 108, 108, 111, 99u8],
        TokenKind::Store => seq![115, 116, 111, 114, 101u8],
        TokenKind::Load => seq![108, 111, 97, 100u8],
        TokenKind::Offset => seq![111, 102, 102, 115, 101, 116u8],
        TokenKind::I32 => seq![105, 51, 50u8],
        TokenKind::I1 => seq![105, 49u8],
        TokenKind::F32 => seq![102, 51, 50u8],
        TokenKind::Ptr => seq![112, 116, 114u8],
        TokenKind::Str => seq![115, 116, 114u8],
        TokenKind::Ascii => seq![97, 115, 99, 105, 105u8],
        TokenKind::Void => seq![118, 111, 105, 100u8],
        _ => Seq::empty(),
    }
}

/// Every keyword is lexed to the kind of the same name: the word that spells a keyword
/// gets that keyword's kind.
pub proof fn lemma_keyword_text_kind(k: TokenKind)
    ensures
        keyword_text(k).len() > 0 ==> keyword_kind(keyword_text(k)) == k,
{
    match k {
        TokenKind::Ret => {
            assert(keyword_kind(seq![114, 101, 116u8]) == TokenKind::Ret);
        },
        TokenKind::Define => {
            assert(keyword_kind(seq![100, 101, 102, 105, 110, 101u8]) == TokenKind::Define);
        },
        TokenKind::Extern => {
            assert(keyword_kind(seq![101, 120, 116, 101, 114, 110u8]) == TokenKind::Extern);
        },
        TokenKind::Copy => {
            assert(keyword_kind(seq![99, 111, 112, 121u8]) == TokenKind::Copy);
        },
        TokenKind::Add => {
            assert(keyword_kind(seq![97, 100, 100u8]) == TokenKind::Add);
        },
        TokenKind::Sub => {
            assert(keyword_kind(seq![115, 117, 98u8]) == TokenKind::Sub);
        },
        TokenKind::Mul => {
            assert(keyword_kind(seq![109, 117, 108u8]) == TokenKind::Mul);
        },
        TokenKind::Div => {
            assert(keyword_kind(seq![100, 105, 118u8]) == TokenKind::Div);
        },
        TokenKind::Udiv => {
            assert(keyword_kind(seq![117, 100, 105, 118u8]) == TokenKind::Udiv);
        },
        TokenKind::Call => {
            assert(keyword_kind(seq![99, 97, 108, 108u8]) == TokenKind::Call);
        },
        TokenKind::Jmp => {
            assert(keyword_kind(seq![106, 109, 112u8]) == TokenKind::Jmp);
        },
        TokenKind::Cmp => {
            assert(keyword_kind(seq![99, 109, 112u8]) == TokenKind::Cmp);
        },
        TokenKind::Eq => {
            assert(keyword_kind(seq![101, 113u8]) == TokenKind::Eq);
        },
        TokenKind::Ne => {
            assert(keyword_kind(seq![110, 101u8]) == TokenKind::Ne);
        },
        TokenKind::Slt => {
            assert(keyword_kind(seq![115, 108, 116u8]) == TokenKind::Slt);
        },
        TokenKind::Ult => {
            assert(keyword_kind(seq![117, 108, 116u8]) == TokenKind::Ult);
        },
        TokenKind::Sgt => {
            assert(keyword_kind(seq![115, 103, 116u8]) == TokenKind::Sgt);
        },
        TokenKind::Ugt => {
            assert(keyword_kind(seq![117, 103, 116u8]) == TokenKind::Ugt);
        },
        TokenKind::Ceq => {
            assert(keyword_kind(seq![99, 101, 113u8]) == TokenKind::Ceq);
        },
        TokenKind::Cne => {
            assert(keyword_kind(seq![99, 110, 101u8]) == TokenKind::Cne);
        },
        TokenKind::Cslt => {
            assert(keyword_kind(seq![99, 115, 108, 116u8]) == TokenKind::Cslt);
        },
        TokenKind::Cult => {
            assert(keyword_kind(seq![99, 117, 108, 116u8]) == TokenKind::Cult);
        },
        TokenKind::Csgt => {
            assert(keyword_kind(seq![99, 115, 103, 116u8]) == TokenKind::Csgt);
        },
        TokenKind::Cugt => {
            assert(keyword_kind(seq![99, 117, 103, 116u8]) == TokenKind::Cugt);
        },
        TokenKind::Br => {
            assert(keyword_kind(seq![98, 114u8]) == TokenKind::Br);
        },
        TokenKind::Data => {
            assert(keyword_kind(seq![100, 97, 116, 97u8]) == TokenKind::Data);
        },
        TokenKind::Constant => {
            assert(keyword_kind(seq![99, 111, 110, 115, 116, 97, 110, 116u8]) == TokenKind::Constant);
        },
        TokenKind::Alloc => {
            assert(keyword_kind(seq![97, 108, 108, 111, 99u8]) == TokenKind::Alloc);
        },
        TokenKind::Store => {
            assert(keyword_kind(seq![115, 116, 111, 114, 101u8]) == TokenKind::Store);
        },
        TokenKind::Load => {
            assert(keyword_kind(seq![108, 111, 97, 100u8]) == TokenKind::Load);
        },
        TokenKind::Offset => {
            assert(keyword_kind(seq![111, 102, 102, 115, 101, 116u8]) == TokenKind::Offset);
        },
        TokenKind::I32 => {
            assert(keyword_kind(seq![105, 51, 50u8]) == TokenKind::I32);
        },
        TokenKind::I1 => {
            assert(keyword_kind(seq![105, 49u8]) == TokenKind::I1);
        },
        TokenKind::F32 => {
            assert(keyword_kind(seq![102, 51, 50u8]) == TokenKind::F32);
        },
        TokenKind::Ptr => {
            assert(keyword_kind(seq![112, 116, 114u8]) == TokenKind::Ptr);
        },
        TokenKind::Str => {
            assert(keyword_kind(seq![115, 116, 114u8]) == TokenKind::Str);
        },
        TokenKind::Ascii => {
            assert(keyword_kind(seq![97, 115, 99, 105, 105u8]) == TokenKind::Ascii);
        },
        TokenKind::Void => {
            assert(keyword_kind(seq![118, 111, 105, 100u8]) == TokenKind::Void);
        },
        _ => {},
    }
}

/// A word gets a keyword kind only when it is the spelling of that keyword.
pub proof fn lemma_keyword_kind_text(w: Seq<u8>)
    ensures
        keyword_kind(w) != TokenKind::Error ==> w == keyword_text(keyword_kind(w)),
{
}

/// Distinct words get distinct keyword kinds.
pub proof fn lemma_keyword_kind_injective(w1: Seq<u8>, w2: Seq<u8>)
    ensures
        keyword_kind(w1) == keyword_kind(w2) && keyword_kind(w1) != TokenKind::Error ==> w1 == w2,
{
    lemma_keyword_kind_text(w1);
    lemma_keyword_kind_text(w2);
}

pub open spec fn tok(a: int, b: int, k: TokenKind) -> Token {
    Token { span: (a as u32, b as u32), kind: k }
}

/// The end and kind of a number whose digits end at `e`: a `.` and more digits make it a
/// floating point literal.
pub open spec fn number_end(s: Seq<u8>, e: int) -> (int, TokenKind) {
    if 0 <= e && e + 1 < s.len() && s[e] == 46 && is_digit(s[e + 1]) {
        (scan_digits(s, e + 1), TokenKind::FloatLit)
    } else {
        (e, TokenKind::IntLit)
    }
}

/// The token that starts at (or after the spaces from) position `c` of `s`, and the
/// position after it.
///
/// A `.` followed by two more is `...`. A string literal runs to the next `"`; its text is
/// what stands between the quotes. A global symbol, a register and a label are their name
/// without `@`, `%` or `#`. An integer literal is digits, or `-` and digits; digits, a `.`
/// and digits make a floating point literal. A word of letters, digits and `_` is a
/// keyword, or an error. Any other byte is an error that does not advance.
#[verifier::opaque]
pub open spec fn lex(s: Seq<u8>, c: int) -> (Token, int) {
    let p = skip_spaces(s, c);
    if p >= s.len() {
        (tok(p, p, TokenKind::Eof), p)
    } else {
        let b = s[p];
        if b == 46 {
            if p + 3 <= s.len() && s[p + 1] == 46 && s[p + 2] == 46 {
                (tok(p, p + 3, TokenKind::Dots), p + 3)
            } else {
                (tok(p, p + 1, TokenKind::Dot), p + 1)
            }
        } else if b == 44 {
            (tok(p, p + 1, TokenKind::Comma), p + 1)
        } else if b == 40 {
            (tok(p, p + 1, TokenKind::Lparen), p + 1)
        } else if b == 41 {
            (tok(p, p + 1, TokenKind::Rparen), p + 1)
        } else if b == 123 {
            (tok(p, p + 1, TokenKind::Lbrace), p + 1)
        } else if b == 125 {
            (tok(p, p + 1, TokenKind::Rbrace), p + 1)
        } else if b == 61 {
            (tok(p, p + 1, TokenKind::Assing), p + 1)
        } else if b == 34 {
            let q = scan_to_quote(s, p + 1);
            (tok(p + 1, q, TokenKind::AsciiLit), q + 1)
        } else if b == 64 {
            let e = scan_alnum(s, p + 1);
            (tok(p + 1, e, TokenKind::GlobSym), e)
        } else if b == 37 {
            let e = scan_alnum(s, p + 1);
            (tok(p + 1, e, TokenKind::Vreg), e)
        } else if b == 35 {
            let e = scan_alnum(s, p + 1);
            (tok(p + 1, e, TokenKind::Label), e)
        } else if b == 45 {
            let (f, k) = number_end(s, scan_digits(s, p + 1));
            (tok(p, f, k), f)
        } else if is_digit(b) {
            let (f, k) = number_end(s, scan_digits(s, p));
            (tok(p, f, k), f)
        } else if is_alpha(b) {
            let e = scan_alnum(s, p);
            (tok(p, e, keyword_kind(s.subrange(p, e))), e)
        } else {
            (tok(0, 0, TokenKind::Error), p)
        }
    }
}

proof fn lemma_skip_spaces(s: Seq<u8>, c: int)
    requires
        0 <= c,
    ensures
        c <= skip_spaces(s, c),
        c <= s.len() ==> skip_spaces(s, c) <= s.len(),
        c > s.len() ==> skip_spaces(s, c) == c,
    decreases s.len() - c,
{
    if 0 <= c < s.len() && is_space(s[c]) {
        lemma_skip_spaces(s, c + 1);
    }
}

proof fn lemma_scan_digits(s: Seq<u8>, c: int)
    requires
        0 <= c <= s.len(),
    ensures
        c <= scan_digits(s, c) <= s.len(),
    decreases s.len() - c,
{
    if c < s.len() && is_digit(s[c]) {
        lemma_scan_digits(s, c + 1);
    }
}

proof fn lemma_scan_alnum(s: Seq<u8>, c: int)
    requires
        0 <= c <= s.len(),
    ensures
        c <= scan_alnum(s, c) <= s.len(),
    decreases s.len() - c,
{
    if c < s.len() && is_alnum(s[c]) {
        lemma_scan_alnum(s, c + 1);
    }
}

proof fn lemma_scan_to_quote(s: Seq<u8>, c: int)
    requires
        0 <= c <= s.len(),
    ensures
        c <= scan_to_quote(s, c) <= s.len(),
    decreases s.len() - c,
{
    if c < s.len() && s[c] != 34 {
        lemma_scan_to_quote(s, c + 1);
    }
}

/// The position after a token never lies before the start position, nor more than one
/// past the end of the source.
pub proof fn lemma_lex_bounds(s: Seq<u8>, c: int)
    requires
        0 <= c <= s.len() + 1,
    ensures
        c <= lex(s, c).1 <= s.len() + 1,
        lex(s, c).0.kind != TokenKind::Eof && lex(s, c).0.kind != TokenKind::Error ==> c < lex(s, c).1,
{
    reveal(lex);
    lemma_skip_spaces(s, c);
    let p = skip_spaces(s, c);
    if p < s.len() {
        lemma_scan_digits(s, p + 1);
        lemma_scan_digits(s, p);
        lemma_scan_alnum(s, p + 1);
        lemma_scan_alnum(s, p);
        lemma_scan_to_quote(s, p + 1);
        let e1 = scan_digits(s, p + 1);
        let e2 = scan_digits(s, p);
        if 0 <= e1 && e1 + 1 < s.len() && s[e1] == 46 && is_digit(s[e1 + 1]) {
            lemma_scan_digits(s, e1 + 1);
        }
        if 0 <= e2 && e2 + 1 < s.len() && s[e2] == 46 && is_digit(s[e2 + 1]) {
            lemma_scan_digits(s, e2 + 1);
        }
    }
}

/// The text of a token other than the end or an error lies within the source.
pub proof fn lemma_lex_span(s: Seq<u8>, c: int)
    requires
        0 <= c <= s.len() + 1,
        s.len() < u32::MAX,
    ensures
        lex(s, c).0.kind != TokenKind::Eof && lex(s, c).0.kind != TokenKind::Error ==> lex(s, c).0.span.0
            <= lex(s, c).0.span.1 <= s.len(),
{
    reveal(lex);
    lemma_skip_spaces(s, c);
    let p = skip_spaces(s, c);
    if p < s.len() {
        lemma_scan_digits(s, p + 1);
        lemma_scan_digits(s, p);
        lemma_scan_alnum(s, p + 1);
        lemma_scan_alnum(s, p);
        lemma_scan_to_quote(s, p + 1);
        let e1 = scan_digits(s, p + 1);
        let e2 = scan_digits(s, p);
        if 0 <= e1 && e1 + 1 < s.len() && s[e1] == 46 && is_digit(s[e1 + 1]) {
            lemma_scan_digits(s, e1 + 1);
        }
        if 0 <= e2 && e2 + 1 < s.len() && s[e2] == 46 && is_digit(s[e2 + 1]) {
            lemma_scan_digits(s, e2 + 1);
        }
    }
}

proof fn lemma_shift_scans(w: Seq<u8>, s: Seq<u8>, c: int)
    requires
        0 <= c,
    ensures
        skip_spaces(w + s, c + w.len()) == skip_spaces(s, c) + w.len(),
        scan_digits(w + s, c + w.len()) == scan_digits(s, c) + w.len(),
        scan_alnum(w + s, c + w.len()) == scan_alnum(s, c) + w.len(),
        scan_to_quote(w + s, c + w.len()) == scan_to_quote(s, c) + w.len(),
    decreases s.len() - c,
{
    let t = w + s;
    let n = w.len() as int;
    if c < s.len() {
        assert(t[c + n] == s[c]);
        lemma_shift_scans(w, s, c + 1);
    }
}

proof fn lemma_tok_shift(a: int, b: int, n: int, k: TokenKind)
    requires
        0 <= a,
        0 <= b,
        0 <= n,
        a + n < u32::MAX,
        b + n < u32::MAX,
    ensures
        tok(a + n, b + n, k).span.0 == tok(a, b, k).span.0 + n,
        tok(a + n, b + n, k).span.1 == tok(a, b, k).span.1 + n,
{
}

proof fn lemma_skip_leading(w: Seq<u8>, s: Seq<u8>, i: int)
    requires
        0 <= i <= w.len(),
        forall|j: int| 0 <= j < w.len() ==> is_space(#[trigger] w[j]),
    ensures
        skip_spaces(w + s, i) == skip_spaces(w + s, w.len() as int),
    decreases w.len() - i,
{
    if i < w.len() {
        assert((w + s)[i] == w[i]);
        lemma_skip_leading(w, s, i + 1);
    }
}

/// Spaces before the source only move its first token: lexing `w + s` from the start,
/// where `w` holds only spaces, gives the kind of token that lexing `s` gives, with its span
/// moved by the length of `w` (an error token for a byte that starts no token, which has
/// no span, stays as it is), and the position after it moved by that length.
pub proof fn lemma_lex_leading_spaces(w: Seq<u8>, s: Seq<u8>)
    requires
        forall|j: int| 0 <= j < w.len() ==> is_space(#[trigger] w[j]),
        w.len() + s.len() + 2 < u32::MAX,
    ensures
        lex(w + s, 0).1 == lex(s, 0).1 + w.len(),
        lex(w + s, 0).0.kind == lex(s, 0).0.kind,
        lex(s, 0).0.kind != TokenKind::Error ==> lex(w + s, 0).0.span.0 == lex(s, 0).0.span.0 + w.len()
            && lex(w + s, 0).0.span.1 == lex(s, 0).0.span.1 + w.len(),
        lex(s, 0).0.kind == TokenKind::Error ==> lex(w + s, 0).0 == lex(s, 0).0 || (lex(w + s, 0).0.span.0
            == lex(s, 0).0.span.0 + w.len() && lex(w + s, 0).0.span.1 == lex(s, 0).0.span.1 + w.len()),
{
    reveal(lex);
    let t = w + s;
    let n = w.len() as int;
    lemma_skip_leading(w, s, 0);
    lemma_shift_scans(w, s, 0);
    lemma_skip_spaces(s, 0);
    let p = skip_spaces(s, 0);
    assert(skip_spaces(t, 0) == p + n);
    lemma_tok_shift(p, p, n, TokenKind::Eof);
    if p < s.len() {
        assert(t[p + n] == s[p]);
        if p + 3 <= s.len() {
            assert(t[p + n + 1] == s[p + 1]);
            assert(t[p + n + 2] == s[p + 2]);
        }
        lemma_shift_scans(w, s, p + 1);
        lemma_shift_scans(w, s, p);
        lemma_scan_digits(s, p + 1);
        lemma_scan_digits(s, p);
        lemma_scan_alnum(s, p);
        lemma_scan_to_quote(s, p + 1);
        let e1 = scan_digits(s, p + 1);
        let e2 = scan_digits(s, p);
        if e1 + 1 < s.len() {
            assert(t[e1 + n] == s[e1]);
            assert(t[e1 + n + 1] == s[e1 + 1]);
            lemma_shift_scans(w, s, e1 + 1);
            lemma_scan_digits(s, e1 + 1);
        }
        if e2 + 1 < s.len() {
            assert(t[e2 + n] == s[e2]);
            assert(t[e2 + n + 1] == s[e2 + 1]);
            lemma_shift_scans(w, s, e2 + 1);
            lemma_scan_digits(s, e2 + 1);
        }
        let e = scan_alnum(s, p);
        assert(t.subrange(p + n, e + n) =~= s.subrange(p, e));
        let q = scan_to_quote(s, p + 1);
        let ea = scan_alnum(s, p + 1);
        lemma_scan_alnum(s, p + 1);
        lemma_tok_shift(p, p + 3, n, TokenKind::Dots);
        lemma_tok_shift(p, p + 1, n, TokenKind::Dot);
        lemma_tok_shift(p + 1, q, n, TokenKind::AsciiLit);
        lemma_tok_shift(p + 1, ea, n, TokenKind::GlobSym);
        lemma_tok_shift(p, e, n, keyword_kind(s.subrange(p, e)));
        let (f1, k1) = number_end(s, e1);
        let (f2, k2) = number_end(s, e2);
        lemma_tok_shift(p, f1, n, k1);
        lemma_tok_shift(p, f2, n, k2);
        assert(number_end(t, e1 + n) == (f1 + n, k1));
        assert(number_end(t, e2 + n) == (f2 + n, k2));
    }
}

/// The mathematical view of an [`IrLexer`]: the source and the position reached.
pub struct LexerV {
    pub source: Seq<u8>,
    pub cursor: nat,
}

/// The lexer: the source as bytes and the position reached.
pub struct IrLexer {
    source: Vec<u8>,
    cursor: u32,
}

impl View for IrLexer {
    type V = LexerV;

    closed spec fn view(&self) -> LexerV {
        LexerV { source: self.source@, cursor: self.cursor as nat }
    }
}

/// Whether `source[start..end]` is `word`.
fn word_is(source: &Vec<u8>, start: usize, end: usize, word: &[u8]) -> (r: bool)
    requires
        start <= end <= source@.len(),
    ensures
        r == (source@.subrange(start as int, end as int) == word@),
{
    if end - start != word.len() {
        return false;
    }
    let mut i: usize = 0;
    while i < word.len()
        invariant
            start <= end <= source@.len(),
            end - start == word@.len(),
            i <= word@.len(),
            forall|j: int| 0 <= j < i ==> source@[start + j] == word@[j],
        decreases word@.len() - i,
    {
        if source[start + i] != word[i] {
            assert(source@.subrange(start as int, end as int)[i as int] != word@[i as int]);
            return false;
        }
        i = i + 1;
    }
    assert(source@.subrange(start as int, end as int) =~= word@);
    true
}

impl IrLexer {
    /// The lexer can go on: the source fits the positions of tokens.
    pub open spec fn wf(&self) -> bool {
        self@.source.len() < u32::MAX && self@.cursor <= self@.source.len() + 1
    }

    /// What the invariant of the lexer says of its view.
    pub proof fn lemma_wf(&self)
        requires
            self.wf(),
        ensures
            self@.source.len() < u32::MAX,
            self@.cursor <= self@.source.len() + 1,
    {
    }

    /// A lexer at the start of `source`.
    pub fn new(source: &str) -> (r: Self)
        requires
            source.spec_bytes().len() < u32::MAX,
        ensures
            r.wf(),
            r@.source == source.spec_bytes(),
            r@.cursor == 0,
    {
        IrLexer { source: vstd::slice::slice_to_vec(source.as_bytes()), cursor: 0 }
    }

    /// The byte at the cursor.
    fn peek(&self) -> (r: u8)
        requires
            (self.cursor as int) < self.source@.len(),
        ensures
            r == self.source@[self.cursor as int],
    {
        self.source[self.cursor as usize]
    }

    fn is_numeric(&self) -> (r: bool)
        requires
            (self.cursor as int) < self.source@.len(),
        ensures
            r == is_digit(self.source@[self.cursor as int]),
    {
        self.peek() >= 48 && self.peek() <= 57
    }

    fn is_alphanumeric(&self) -> (r: bool)
        requires
            (self.cursor as int) < self.source@.len(),
        ensures
            r == is_alnum(self.source@[self.cursor as int]),
    {
        (self.peek() >= 97 && self.peek() <= 122) || (self.peek() >= 65 && self.peek() <= 90) || self.peek() == 95
            || self.is_numeric()
    }

    /// The kind of the word from `start` to the cursor.
    fn get_keyword(&self, start: u32) -> (r: TokenKind)
        requires
            start <= self.cursor <= self.source@.len(),
        ensures
            r == keyword_kind(self.source@.subrange(start as int, self.cursor as int)),
    {
        let start = start as usize;
        let end = self.cursor as usize;
        if word_is(&self.source, start, end, &[114, 101, 116u8]) {
            TokenKind::Ret
        } else if word_is(&self.source, start, end, &[105, 51, 50u8]) {
            TokenKind::I32
        } else if word_is(&self.source, start, end, &[105, 49u8]) {
            TokenKind::I1
        } else if word_is(&self.source, start, end, &[102, 51, 50u8]) {
            TokenKind::F32
        } else if word_is(&self.source, start, end, &[112, 116, 114u8]) {
            TokenKind::Ptr
        } else if word_is(&self.source, start, end, &[115, 116, 114u8]) {
            TokenKind::Str
        } else if word_is(&self.source, start, end, &[97, 115, 99, 105, 105u8]) {
            TokenKind::Ascii
        } else if word_is(&self.source, start, end, &[118, 111, 105, 100u8]) {
            TokenKind::Void
        } else if word_is(&self.source, start, end, &[100, 101, 102, 105, 110, 101u8]) {
            TokenKind::Define
        } else if word_is(&self.source, start, end, &[101, 120, 116, 101, 114, 110u8]) {
            TokenKind::Extern
        } else if word_is(&self.source, start, end, &[99, 111, 112, 121u8]) {
            TokenKind::Copy
        } else if word_is(&self.source, start, end, &[97, 100, 100u8]) {
            TokenKind::Add
        } else if word_is(&self.source, start, end, &[115, 117, 98u8]) {
            TokenKind::Sub
        } else if word_is(&self.source, start, end, &[109, 117, 108u8]) {
            TokenKind::Mul
        } else if word_is(&self.source, start, end, &[100, 105, 118u8]) {
            TokenKind::Div
        } else if word_is(&self.source, start, end, &[117, 100, 105, 118u8]) {
            TokenKind::Udiv
        } else if word_is(&self.source, start, end, &[99, 97, 108, 108u8]) {
            TokenKind::Call
        } else if word_is(&self.source, start, end, &[106, 109, 112u8]) {
            TokenKind::Jmp
        } else if word_is(&self.source, start, end, &[99, 109, 112u8]) {
            TokenKind::Cmp
        } else if word_is(&self.source, start, end, &[101, 113u8]) {
            TokenKind::Eq
        } else if word_is(&self.source, start, end, &[110, 101u8]) {
            TokenKind::Ne
        } else if word_is(&self.source, start, end, &[115, 108, 116u8]) {
            TokenKind::Slt
        } else if word_is(&self.source, start, end, &[117, 108, 116u8]) {
            TokenKind::Ult
        } else if word_is(&self.source, start, end, &[115, 103, 116u8]) {
            TokenKind::Sgt
        } else if word_is(&self.source, start, end, &[117, 103, 116u8]) {
            TokenKind::Ugt
        } else if word_is(&self.source, start, end, &[99, 101, 113u8]) {
            TokenKind::Ceq
        } else if word_is(&self.source, start, end, &[99, 110, 101u8]) {
            TokenKind::Cne
        } else if word_is(&self.source, start, end, &[99, 115, 108, 116u8]) {
            TokenKind::Cslt
        } else if word_is(&self.source, start, end, &[99, 117, 108, 116u8]) {
            TokenKind::Cult
        } else if word_is(&self.source, start, end, &[99, 115, 103, 116u8]) {
            TokenKind::Csgt
        } else if word_is(&self.source, start, end, &[99, 117, 103, 116u8]) {
            TokenKind::Cugt
        } else if word_is(&self.source, start, end, &[98, 114u8]) {
            TokenKind::Br
        } else if word_is(&self.source, start, end, &[100, 97, 116, 97u8]) {
            TokenKind::Data
        } else if word_is(&self.source, start, end, &[99, 111, 110, 115, 116, 97, 110, 116u8]) {
            TokenKind::Constant
        } else if word_is(&self.source, start, end, &[97, 108, 108, 111, 99u8]) {
            TokenKind::Alloc
        } else if word_is(&self.source, start, end, &[115, 116, 111, 114, 101u8]) {
            TokenKind::Store
        } else if word_is(&self.source, start, end, &[108, 111, 97, 100u8]) {
            TokenKind::Load
        } else if word_is(&self.source, start, end, &[111, 102, 102, 115, 101, 116u8]) {
            TokenKind::Offset
        } else {
            TokenKind::Error
        }
    }

    fn is_at_end(&self) -> (r: bool)
        ensures
            r == (self.cursor >= self.source@.len()),
    {
        self.cursor as usize >= self.source.len()
    }

    /// Moves the cursor while the byte under it is a digit.
    fn skip_digits(&mut self)
        requires
            old(self).wf(),
            old(self).cursor <= old(self).source@.len(),
        ensures
            final(self).wf(),
            final(self).source == old(self).source,
            final(self).cursor == scan_digits(old(self).source@, old(self).cursor as int),
    {
        let ghost c0 = self.cursor as int;
        proof {
            lemma_scan_digits(self.source@, c0);
        }
        while !self.is_at_end() && self.is_numeric()
            invariant
                self.wf(),
                self.source == old(self).source,
                c0 <= self.cursor <= self.source@.len(),
                scan_digits(self.source@, self.cursor as int) == scan_digits(self.source@, c0),
            decreases self.source@.len() - self.cursor,
        {
            self.cursor = self.cursor + 1;
        }
    }

    /// Moves the cursor while the byte under it is a letter, a digit or `_`.
    fn skip_alnum(&mut self)
        requires
            old(self).wf(),
            old(self).cursor <= old(self).source@.len(),
        ensures
            final(self).wf(),
            final(self).source == old(self).source,
            final(self).cursor == scan_alnum(old(self).source@, old(self).cursor as int),
    {
        let ghost c0 = self.cursor as int;
        while !self.is_at_end() && self.is_alphanumeric()
            invariant
                self.wf(),
                self.source == old(self).source,
                c0 <= self.cursor <= self.source@.len(),
                scan_alnum(self.source@, self.cursor as int) == scan_alnum(self.source@, c0),
            decreases self.source@.len() - self.cursor,
        {
            self.cursor = self.cursor + 1;
        }
    }

    /// Reads the rest of a number whose first byte (a digit or `-`) the cursor is past.
    fn finish_number(&mut self, start: u32) -> (r: Token)
        requires
            old(self).wf(),
            old(self).cursor <= old(self).source@.len(),
            start < old(self).cursor,
        ensures
            final(self).wf(),
            final(self).source == old(self).source,
            ({
                let (f, k) = number_end(old(self).source@, scan_digits(old(self).source@, old(self).cursor as int));
                r == tok(start as int, f, k) && final(self).cursor == f
            }),
    {
        self.skip_digits();
        let ghost e = self.cursor as int;
        proof {
            lemma_scan_digits(self.source@, old(self).cursor as int);
        }
        if (self.cursor as usize) + 1 < self.source.len() && self.source[self.cursor as usize] == 46
            && self.source[self.cursor as usize + 1] >= 48 && self.source[self.cursor as usize + 1] <= 57 {
            self.cursor = self.cursor + 1;
            proof {
                lemma_scan_digits(self.source@, e + 1);
            }
            self.skip_digits();
            Token::new((start, self.cursor), TokenKind::FloatLit)
        } else {
            Token::new((start, self.cursor), TokenKind::IntLit)
        }
    }

    /// The next token; the cursor moves past it.
    pub fn next_token(&mut self) -> (r: Token)
        requires
            old(self).wf(),
        ensures
            final(self).wf(),
            final(self)@.source == old(self)@.source,
            (r, final(self)@.cursor as int) == lex(old(self)@.source, old(self)@.cursor as int),
    {
        let ghost s = self.source@;
        let ghost c0 = self.cursor as int;
        proof {
            reveal(lex);
            lemma_skip_spaces(s, c0);
            lemma_lex_bounds(s, c0);
        }
        while !self.is_at_end() && (self.peek() == 32 || self.peek() == 10 || self.peek() == 13 || self.peek() == 9)
            invariant
                self.wf(),
                self.source@ == s,
                c0 <= self.cursor,
                skip_spaces(s, self.cursor as int) == skip_spaces(s, c0),
            decreases s.len() - self.cursor,
        {
            self.cursor = self.cursor + 1;
        }
        let ghost p = self.cursor as int;
        assert(p == skip_spaces(s, c0));
        if self.is_at_end() {
            return Token::new((self.cursor, self.cursor), TokenKind::Eof);
        }
        let b = self.peek();
        if b == 46 {
            self.cursor = self.cursor + 1;
            if self.source.len() - (self.cursor as usize) >= 2 && self.source[self.cursor as usize] == 46
                && self.source[self.cursor as usize + 1] == 46 {
                self.cursor = self.cursor + 2;
                return Token::new((self.cursor - 3, self.cursor), TokenKind::Dots);
            }
            return Token::new((self.cursor - 1, self.cursor), TokenKind::Dot);
        }
        if b == 44 || b == 40 || b == 41 || b == 123 || b == 125 || b == 61 {
            self.cursor = self.cursor + 1;
            let kind = if b == 44 {
                TokenKind::Comma
            } else if b == 40 {
                TokenKind::Lparen
            } else if b == 41 {
                TokenKind::Rparen
            } else if b == 123 {
                TokenKind::Lbrace
            } else if b == 125 {
                TokenKind::Rbrace
            } else {
                TokenKind::Assing
            };
            return Token::new((self.cursor - 1, self.cursor), kind);
        }
        if b == 34 {
            self.cursor = self.cursor + 1;
            let start = self.cursor;
            proof {
                lemma_scan_to_quote(s, p + 1);
            }
            while !self.is_at_end() && self.peek() != 34
                invariant
                    self.wf(),
                    self.source@ == s,
                    p + 1 <= self.cursor <= s.len(),
                    scan_to_quote(s, self.cursor as int) == scan_to_quote(s, p + 1),
                decreases s.len() - self.cursor,
            {
                self.cursor = self.cursor + 1;
            }
            self.cursor = self.cursor + 1;
            return Token::new((start, self.cursor - 1), TokenKind::AsciiLit);
        }
        if b == 64 || b == 37 || b == 35 {
            self.cursor = self.cursor + 1;
            let start = self.cursor;
            self.skip_alnum();
            let kind = if b == 64 {
                TokenKind::GlobSym
            } else if b == 37 {
                TokenKind::Vreg
            } else {
                TokenKind::Label
            };
            return Token::new((start, self.cursor), kind);
        }
        if b == 45 {
            let start = self.cursor;
            self.cursor = self.cursor + 1;
            return self.finish_number(start);
        }
        if b >= 48 && b <= 57 {
            let start = self.cursor;
            self.cursor = self.cursor + 1;
            proof {
                assert(scan_digits(s, p) == scan_digits(s, p + 1));
            }
            return self.finish_number(start);
        }
        if (b >= 97 && b <= 122) || (b >= 65 && b <= 90) || b == 95 {
            let start = self.cursor;
            self.skip_alnum();
            proof {
                lemma_scan_alnum(s, p);
            }
            let kind = self.get_keyword(start);
            return Token::new((start, self.cursor), kind);
        }
        Token::new((0, 0), TokenKind::Error)
    }

    /// The next token, without moving the cursor.
    pub fn peek_token(&mut self) -> (r: Token)
        requires
            old(self).wf(),
        ensures
            final(self).wf(),
            final(self)@ == old(self)@,
            r == lex(old(self)@.source, old(self)@.cursor as int).0,
    {
        let cursor = self.cursor;
        let tk = self.next_token();
        self.cursor = cursor;
        tk
    }
}

} // verus!
