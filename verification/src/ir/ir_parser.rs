//! The parser of the textual IR: it reads a [`Module`] from the tokens of the lexer.
//!
//! The grammar is stated by the spec functions `p_*` below, one per construct, over the
//! source and a parser state (the position of the lexer, the next register number and the
//! registers declared so far). A repetition is stated by [`loop_result`]: one step after the
//! other until a step ends it. Registers are numbered in the order of their first
//! assignment (or declaration as a parameter), from the number the function started with;
//! the numbering starts again with each function, while names keep the register last given
//! to them.

use vstd::prelude::*;
use vstd::string::StringSliceAdditionalSpecFns;

use crate::ir::ir_lexer::{keyword_kind, lemma_lex_bounds, lemma_lex_span, lex, IrLexer, Token, TokenKind};
use crate::module::function::{Function, FunctionV, Parameter};
use crate::module::instruction::{GlobData, GlobDataV, InstrV, Instruction, OpKind, Type, Value, ValueV};
use crate::cfg::ControlFlowGraph;
use crate::module::{view_glob, Module, ModuleV};

verus! {

/// Why the source could not be parsed.
#[derive(Debug, Clone, Copy, PartialEq, Eq, Structural)]
pub enum ParseError {
    /// A token of kind `expected` was needed; one of kind `found` stood there.
    UnexpectedToken { expected: TokenKind, found: TokenKind, start: u32, end: u32 },
    /// A value was needed.
    ExpectedValue { found: TokenKind, start: u32, end: u32 },
    /// A type was needed.
    ExpectedType { found: TokenKind, start: u32, end: u32 },
    /// An instruction was needed.
    ExpectedInstruction { found: TokenKind, start: u32, end: u32 },
    /// `define` or `data` was needed.
    ExpectedItem { found: TokenKind, start: u32, end: u32 },
    /// A register was read that was never assigned.
    UndeclaredVreg { start: u32, end: u32 },
    /// A number does not fit its type.
    InvalidNumber { start: u32, end: u32 },
    /// Global data cannot hold values of this type.
    UnsupportedData { ty: Type },
}

/// The state of the parser: the position of the lexer, the number the next new register
/// gets, and the registers declared so far (the last one for a name counts).
pub struct PState {
    pub cur: int,
    pub nreg: nat,
    pub locals: Seq<(Seq<u8>, usize)>,
}

/// The token at the position of `st`.
pub open spec fn pk(s: Seq<u8>, st: PState) -> Token {
    lex(s, st.cur).0
}

/// `st` moved past the token at its position.
pub open spec fn adv(s: Seq<u8>, st: PState) -> PState {
    PState { cur: lex(s, st.cur).1, ..st }
}

/// The text of a token.
pub open spec fn text(s: Seq<u8>, t: Token) -> Seq<u8> {
    s.subrange(t.span.0 as int, t.span.1 as int)
}

/// The next token, which must be of kind `k`.
pub open spec fn p_eat(s: Seq<u8>, st: PState, k: TokenKind) -> Result<(Token, PState), ParseError> {
    let t = pk(s, st);
    if t.kind == k {
        Ok((t, adv(s, st)))
    } else {
        Err(ParseError::UnexpectedToken { expected: k, found: t.kind, start: t.span.0, end: t.span.1 })
    }
}

/// The register last declared with the name `name`.
pub open spec fn lookup_local(locals: Seq<(Seq<u8>, usize)>, name: Seq<u8>) -> Option<usize>
    decreases locals.len(),
{
    if locals.len() == 0 {
        None
    } else if locals.last().0 == name {
        Some(locals.last().1)
    } else {
        lookup_local(locals.drop_last(), name)
    }
}

// ---------------------------------------------------------------------------------------
// Repetition

/// What one step of a repetition did: ended it without consuming anything more, read an
/// item and goes on, read a last item, or failed.
pub enum Step<X> {
    Done(PState),
    More(X, PState),
    Last(X, PState),
    Fail(ParseError),
}

/// The items and the state after `k` steps that all went on, if they did.
pub open spec fn iterate<X>(step: spec_fn(PState) -> Step<X>, st: PState, k: nat) -> Option<(Seq<X>, PState)>
    decreases k,
{
    if k == 0 {
        Some((Seq::empty(), st))
    } else {
        match iterate(step, st, (k - 1) as nat) {
            Some((xs, st1)) => match step(st1) {
                Step::More(x, st2) => Some((xs.push(x), st2)),
                _ => None,
            },
            None => None,
        }
    }
}

/// The repetition from `st` gives `r`: after `k` steps that went on, a step ended it.
pub open spec fn loop_outcome<X>(step: spec_fn(PState) -> Step<X>, st: PState, k: nat, r: Result<(Seq<X>, PState), ParseError>) -> bool {
    match iterate(step, st, k) {
        Some((xs, st1)) => match step(st1) {
            Step::Done(st2) => r == Ok::<(Seq<X>, PState), ParseError>((xs, st2)),
            Step::Last(x, st2) => r == Ok::<(Seq<X>, PState), ParseError>((xs.push(x), st2)),
            Step::Fail(e) => r == Err::<(Seq<X>, PState), ParseError>(e),
            Step::More(_, _) => false,
        },
        None => false,
    }
}

/// The repetition from `st` ends and gives `r`.
pub open spec fn ends_with<X>(step: spec_fn(PState) -> Step<X>, st: PState, r: Result<(Seq<X>, PState), ParseError>) -> bool {
    exists|k: nat| #[trigger] loop_outcome(step, st, k, r)
}

/// What the repetition from `st` gives, if it ends.
pub open spec fn loop_result<X>(step: spec_fn(PState) -> Step<X>, st: PState) -> Option<Result<(Seq<X>, PState), ParseError>> {
    if exists|r: Result<(Seq<X>, PState), ParseError>| #[trigger] ends_with(step, st, r) {
        Some(choose|r: Result<(Seq<X>, PState), ParseError>| #[trigger] ends_with(step, st, r))
    } else {
        None
    }
}

proof fn lemma_iterate_prefix<X>(step: spec_fn(PState) -> Step<X>, st: PState, j: nat, k: nat)
    requires
        j < k,
        iterate(step, st, k) is Some,
    ensures
        iterate(step, st, j) is Some,
        step(iterate(step, st, j).unwrap().1) is More,
    decreases k,
{
    if j < k - 1 {
        lemma_iterate_prefix(step, st, j, (k - 1) as nat);
    }
}

proof fn lemma_outcome_unique<X>(
    step: spec_fn(PState) -> Step<X>,
    st: PState,
    k1: nat,
    r1: Result<(Seq<X>, PState), ParseError>,
    k2: nat,
    r2: Result<(Seq<X>, PState), ParseError>,
)
    requires
        loop_outcome(step, st, k1, r1),
        loop_outcome(step, st, k2, r2),
    ensures
        r1 == r2,
{
    if k1 < k2 {
        lemma_iterate_prefix(step, st, k1, k2);
    } else if k2 < k1 {
        lemma_iterate_prefix(step, st, k2, k1);
    }
}

/// A repetition that ended after `k` steps gives its outcome.
proof fn lemma_loop_result<X>(step: spec_fn(PState) -> Step<X>, st: PState, k: nat, r: Result<(Seq<X>, PState), ParseError>)
    requires
        loop_outcome(step, st, k, r),
    ensures
        loop_result(step, st) == Some(r),
{
    assert(ends_with(step, st, r));
    let c = choose|r: Result<(Seq<X>, PState), ParseError>| #[trigger] ends_with(step, st, r);
    let kc = choose|kc: nat| #[trigger] loop_outcome(step, st, kc, c);
    lemma_outcome_unique(step, st, kc, c, k, r);
}

proof fn lemma_iterate_next<X>(step: spec_fn(PState) -> Step<X>, st: PState, k: nat, xs: Seq<X>, st1: PState, x: X, st2: PState)
    requires
        iterate(step, st, k) == Some((xs, st1)),
        step(st1) == Step::More(x, st2),
    ensures
        iterate(step, st, k + 1) == Some((xs.push(x), st2)),
{
    assert(((k + 1) - 1) as nat == k);
}

// ---------------------------------------------------------------------------------------
// Numbers

pub open spec fn all_digits(t: Seq<u8>) -> bool {
    forall|i: int| 0 <= i < t.len() ==> 48 <= #[trigger] t[i] <= 57
}

/// The value of the decimal digits `t`.
pub open spec fn dec_val(t: Seq<u8>) -> nat
    decreases t.len(),
{
    if t.len() == 0 {
        0
    } else {
        dec_val(t.drop_last()) * 10 + (t.last() - 48) as nat
    }
}

/// The integer that the text of an integer literal denotes: digits, or `-` and digits.
pub open spec fn int_value(t: Seq<u8>) -> Option<int> {
    if t.len() > 0 && t[0] == 45 {
        let d = t.skip(1);
        if d.len() > 0 && all_digits(d) {
            Some(-(dec_val(d) as int))
        } else {
            None
        }
    } else if t.len() > 0 && all_digits(t) {
        Some(dec_val(t) as int)
    } else {
        None
    }
}

/// The integer, if it lies within `lo..=hi`.
pub open spec fn in_range(v: Option<int>, lo: int, hi: int) -> Option<int> {
    match v {
        Some(x) => if lo <= x <= hi {
            Some(x)
        } else {
            None
        },
        None => None,
    }
}

/// The immediate that an integer literal stands for: a non-negative literal as a `usize`,
/// a negative one as an `isize` taken as the `usize` with the same bits.
pub open spec fn imm_value(t: Seq<u8>) -> Option<usize> {
    if t.len() > 0 && t[0] == 45 {
        match in_range(int_value(t), isize::MIN as int, isize::MAX as int) {
            Some(x) => Some(if x == 0 {
                0usize
            } else {
                (usize::MAX as int + 1 + x) as usize
            }),
            None => None,
        }
    } else {
        match in_range(int_value(t), 0, usize::MAX as int) {
            Some(x) => Some(x as usize),
            None => None,
        }
    }
}

/// The four bytes of `x` (taken modulo 2 to the 32) in little endian order.
pub open spec fn le_bytes32(x: int) -> Seq<u8> {
    let u = if x < 0 {
        x + 0x1_0000_0000
    } else {
        x
    };
    seq![(u % 256) as u8, ((u / 256) % 256) as u8, ((u / 65536) % 256) as u8, ((u / 16777216) % 256) as u8]
}

/// The number of bits of `n`.
pub open spec fn bit_len(n: nat) -> nat
    decreases n,
{
    if n == 0 {
        0
    } else {
        1 + bit_len(n / 2)
    }
}

/// `2` to the `e`.
pub open spec fn pow2(e: nat) -> nat
    decreases e,
{
    if e == 0 {
        1
    } else {
        2 * pow2((e - 1) as nat)
    }
}

/// The bits of the single precision float nearest to `neg ? -n : n` (ties to even), for
/// `n` below 2 to the 128; infinity when the rounding reaches 2 to the 128.
pub open spec fn f32_bits(neg: bool, n: nat) -> u32 {
    let sign: nat = if neg {
        0x8000_0000
    } else {
        0
    };
    if n == 0 {
        sign as u32
    } else {
        let e = (bit_len(n) - 1) as nat;
        if e <= 23 {
            (sign + (e + 127) * 0x80_0000 + (n * pow2((23 - e) as nat) - 0x80_0000)) as u32
        } else {
            let sh = (e - 23) as nat;
            let m = n / pow2(sh);
            let rem = n % pow2(sh);
            let half = pow2((sh - 1) as nat);
            let up = rem > half || (rem == half && m % 2 == 1);
            let m2 = if up {
                m + 1
            } else {
                m
            };
            let (m3, e3) = if m2 == 0x100_0000 {
                (0x80_0000nat, e + 1)
            } else {
                (m2, e)
            };
            if e3 >= 128 {
                (sign + 0x7f80_0000) as u32
            } else {
                (sign + (e3 + 127) * 0x80_0000 + (m3 - 0x80_0000)) as u32
            }
        }
    }
}

/// The value of decimal digits, or 2 to the 128 less one when it is larger.
pub open spec fn capped(v: nat) -> nat {
    if v > u128::MAX {
        u128::MAX as nat
    } else {
        v
    }
}

/// The four bytes of the single precision float that an integer literal denotes.
pub open spec fn f32_data(t: Seq<u8>) -> Option<Seq<u8>> {
    if t.len() > 0 && t[0] == 45 {
        let d = t.skip(1);
        if d.len() > 0 && all_digits(d) {
            Some(le_bytes32(f32_bits(true, capped(dec_val(d))) as int))
        } else {
            None
        }
    } else if t.len() > 0 && all_digits(t) {
        Some(le_bytes32(f32_bits(false, capped(dec_val(t))) as int))
    } else {
        None
    }
}

/// The value of an unsigned integer literal: digits only.
pub open spec fn uint_value(t: Seq<u8>) -> Option<int> {
    if t.len() > 0 && all_digits(t) {
        Some(dec_val(t) as int)
    } else {
        None
    }
}

// ---------------------------------------------------------------------------------------
// The grammar

/// A repetition that never ends does not occur; this stands for its result.
pub open spec fn run_loop<X>(step: spec_fn(PState) -> Step<X>, st: PState) -> Result<(Seq<X>, PState), ParseError> {
    match loop_result(step, st) {
        Some(r) => r,
        None => Err(ParseError::ExpectedItem { found: TokenKind::Error, start: 0, end: 0 }),
    }
}

/// A value: an integer literal, a floating point literal (kept as written), a declared
/// register or a global symbol.
pub open spec fn p_value(s: Seq<u8>, st: PState) -> Result<(ValueV, PState), ParseError> {
    let t = pk(s, st);
    let st1 = adv(s, st);
    let x = text(s, t);
    match t.kind {
        TokenKind::IntLit => match imm_value(x) {
            Some(n) => Ok((ValueV::IntLit(n), st1)),
            None => Err(ParseError::InvalidNumber { start: t.span.0, end: t.span.1 }),
        },
        TokenKind::FloatLit => Ok((ValueV::FloatLit(x), st1)),
        TokenKind::Vreg => match lookup_local(st.locals, x) {
            Some(r) => Ok((ValueV::Vreg(r), st1)),
            None => Err(ParseError::UndeclaredVreg { start: t.span.0, end: t.span.1 }),
        },
        TokenKind::GlobSym => Ok((ValueV::GlobSym(x), st1)),
        _ => Err(ParseError::ExpectedValue { found: t.kind, start: t.span.0, end: t.span.1 }),
    }
}

/// The type a token names, if any.
pub open spec fn type_of_token(k: TokenKind) -> Option<Type> {
    match k {
        TokenKind::I32 => Some(Type::I32),
        TokenKind::I1 => Some(Type::I1),
        TokenKind::F32 => Some(Type::F32),
        TokenKind::Ptr => Some(Type::Ptr),
        TokenKind::Ascii => Some(Type::Ascii),
        TokenKind::Void => Some(Type::Void),
        _ => None,
    }
}

/// A type.
pub open spec fn p_type(s: Seq<u8>, st: PState) -> Result<(Type, PState), ParseError> {
    let t = pk(s, st);
    match type_of_token(t.kind) {
        Some(ty) => Ok((ty, adv(s, st))),
        None => Err(ParseError::ExpectedType { found: t.kind, start: t.span.0, end: t.span.1 }),
    }
}

/// A type, then a value.
pub open spec fn p_type_value(s: Seq<u8>, st: PState) -> Result<((Type, ValueV), PState), ParseError> {
    match p_type(s, st) {
        Err(e) => Err(e),
        Ok((ty, st1)) => match p_value(s, st1) {
            Err(e) => Err(e),
            Ok((v, st2)) => Ok(((ty, v), st2)),
        },
    }
}

/// A value, a comma and a value.
pub open spec fn p_two_values(s: Seq<u8>, st: PState) -> Result<((ValueV, ValueV), PState), ParseError> {
    match p_value(s, st) {
        Err(e) => Err(e),
        Ok((a, st1)) => match p_eat(s, st1, TokenKind::Comma) {
            Err(e) => Err(e),
            Ok((_, st2)) => match p_value(s, st2) {
                Err(e) => Err(e),
                Ok((b, st3)) => Ok(((a, b), st3)),
            },
        },
    }
}

/// `ret TYPE VALUE`, or `ret void`.
pub open spec fn p_ret(s: Seq<u8>, st: PState) -> Result<(InstrV, PState), ParseError> {
    match p_eat(s, st, TokenKind::Ret) {
        Err(e) => Err(e),
        Ok((_, st1)) => match p_type(s, st1) {
            Err(e) => Err(e),
            Ok((ty, st2)) => if ty == Type::Void {
                Ok((InstrV::Ret { val: ValueV::Void, ty }, st2))
            } else {
                match p_value(s, st2) {
                    Err(e) => Err(e),
                    Ok((v, st3)) => Ok((InstrV::Ret { val: v, ty }, st3)),
                }
            },
        },
    }
}

/// `copy TYPE VALUE`, writing register `vreg`.
pub open spec fn p_copy(s: Seq<u8>, st: PState, vreg: usize) -> Result<(InstrV, PState), ParseError> {
    match p_eat(s, st, TokenKind::Copy) {
        Err(e) => Err(e),
        Ok((_, st1)) => match p_type_value(s, st1) {
            Err(e) => Err(e),
            Ok(((ty, v), st2)) => Ok((InstrV::Copy { vreg, val: v, ty }, st2)),
        },
    }
}

/// The operation a token names, if any.
pub open spec fn op_of_token(k: TokenKind) -> Option<OpKind> {
    match k {
        TokenKind::Add => Some(OpKind::Add),
        TokenKind::Sub => Some(OpKind::Sub),
        TokenKind::Mul => Some(OpKind::Mul),
        TokenKind::Div => Some(OpKind::Div),
        TokenKind::Udiv => Some(OpKind::Udiv),
        TokenKind::Ceq => Some(OpKind::CmpEq),
        TokenKind::Cne => Some(OpKind::CmpNe),
        TokenKind::Cslt => Some(OpKind::CmpSlt),
        TokenKind::Cult => Some(OpKind::CmpUlt),
        TokenKind::Csgt => Some(OpKind::CmpSgt),
        TokenKind::Cugt => Some(OpKind::CmpUgt),
        _ => None,
    }
}

/// How an operation is spelled in the source: `add`, `sub`, `mul`, `div`, `udiv`, `ceq`, `cne`,
/// `cslt`, `cult`, `csgt` and `cugt`.
pub open spec fn op_mnemonic(o: OpKind) -> Seq<u8> {
    match o {
        OpKind::Add => seq![97, 100, 100u8],
        OpKind::Sub => seq![115, 117, 98u8],
        OpKind::Mul => seq![109, 117, 108u8],
        OpKind::Div => seq![100, 105, 118u8],
        OpKind::Udiv => seq![117, 100, 105, 118u8],
        OpKind::CmpEq => seq![99, 101, 113u8],
        OpKind::CmpNe => seq![99, 110, 101u8],
        OpKind::CmpSlt => seq![99, 115, 108, 116u8],
        OpKind::CmpUlt => seq![99, 117, 108, 116u8],
        OpKind::CmpSgt => seq![99, 115, 103, 116u8],
        OpKind::CmpUgt => seq![99, 117, 103, 116u8],
    }
}

/// The mnemonic of each operation lexes to a token that names that very operation: `cne`
/// is read as `CmpNe`, `mul` as `Mul`, and so on.
pub proof fn lemma_mnemonic_names_op(o: OpKind)
    ensures
        op_of_token(keyword_kind(op_mnemonic(o))) == Some(o),
{
    match o {
        OpKind::Add => {
            assert(keyword_kind(seq![97, 100, 100u8]) == keyword_kind(op_mnemonic(o)));
        },
        OpKind::Sub => {
            assert(keyword_kind(seq![115, 117, 98u8]) == keyword_kind(op_mnemonic(o)));
        },
        OpKind::Mul => {
            assert(keyword_kind(seq![109, 117, 108u8]) == keyword_kind(op_mnemonic(o)));
        },
        OpKind::Div => {
            assert(keyword_kind(seq![100, 105, 118u8]) == keyword_kind(op_mnemonic(o)));
        },
        OpKind::Udiv => {
            assert(keyword_kind(seq![117, 100, 105, 118u8]) == keyword_kind(op_mnemonic(o)));
        },
        OpKind::CmpEq => {
            assert(keyword_kind(seq![99, 101, 113u8]) == keyword_kind(op_mnemonic(o)));
        },
        OpKind::CmpNe => {
            assert(keyword_kind(seq![99, 110, 101u8]) == keyword_kind(op_mnemonic(o)));
        },
        OpKind::CmpSlt => {
            assert(keyword_kind(seq![99, 115, 108, 116u8]) == keyword_kind(op_mnemonic(o)));
        },
        OpKind::CmpUlt => {
            assert(keyword_kind(seq![99, 117, 108, 116u8]) == keyword_kind(op_mnemonic(o)));
        },
        OpKind::CmpSgt => {
            assert(keyword_kind(seq![99, 115, 103, 116u8]) == keyword_kind(op_mnemonic(o)));
        },
        OpKind::CmpUgt => {
            assert(keyword_kind(seq![99, 117, 103, 116u8]) == keyword_kind(op_mnemonic(o)));
        },
    }
}

/// No two tokens name the same operation.
pub proof fn lemma_op_of_token_injective(k1: TokenKind, k2: TokenKind)
    ensures
        op_of_token(k1) is Some && op_of_token(k1) == op_of_token(k2) ==> k1 == k2,
{
}

/// `OP TYPE VALUE, VALUE`, writing register `vreg`.
pub open spec fn p_op(s: Seq<u8>, st: PState, vreg: usize) -> Result<(InstrV, PState), ParseError> {
    let t = pk(s, st);
    match op_of_token(t.kind) {
        None => Err(ParseError::ExpectedInstruction { found: t.kind, start: t.span.0, end: t.span.1 }),
        Some(kind) => match p_type(s, adv(s, st)) {
            Err(e) => Err(e),
            Ok((ty, st2)) => match p_two_values(s, st2) {
                Err(e) => Err(e),
                Ok(((lhs, rhs), st3)) => Ok((InstrV::Op { vreg, kind, lhs, rhs, ty }, st3)),
            },
        },
    }
}

/// One more argument of a call: a comma, a type and a value; the arguments end at
/// anything but a comma.
pub open spec fn arg_step(s: Seq<u8>) -> spec_fn(PState) -> Step<(Type, ValueV)> {
    |st: PState|
        if pk(s, st).kind != TokenKind::Comma {
            Step::Done(st)
        } else {
            match p_type_value(s, adv(s, st)) {
                Err(e) => Step::Fail(e),
                Ok((a, st2)) => Step::More(a, st2),
            }
        }
}

/// The arguments of a call, up to its `)`.
pub open spec fn p_args(s: Seq<u8>, st: PState) -> Result<(Seq<(Type, ValueV)>, PState), ParseError> {
    if pk(s, st).kind == TokenKind::Rparen {
        Ok((Seq::empty(), st))
    } else {
        match p_type_value(s, st) {
            Err(e) => Err(e),
            Ok((a, st1)) => match run_loop(arg_step(s), st1) {
                Err(e) => Err(e),
                Ok((rest, st2)) => Ok((seq![a] + rest, st2)),
            },
        }
    }
}

/// `call TYPE @FUNC(TYPE VALUE, ...)`, writing register `vreg` unless its value is
/// discarded.
pub open spec fn p_call(s: Seq<u8>, st: PState, vreg: usize, discard_value: bool) -> Result<(InstrV, PState), ParseError> {
    match p_eat(s, st, TokenKind::Call) {
        Err(e) => Err(e),
        Ok((_, st1)) => match p_type(s, st1) {
            Err(e) => Err(e),
            Ok((ty, st2)) => match p_eat(s, st2, TokenKind::GlobSym) {
                Err(e) => Err(e),
                Ok((f, st3)) => match p_eat(s, st3, TokenKind::Lparen) {
                    Err(e) => Err(e),
                    Ok((_, st4)) => match p_args(s, st4) {
                        Err(e) => Err(e),
                        Ok((args, st5)) => match p_eat(s, st5, TokenKind::Rparen) {
                            Err(e) => Err(e),
                            Ok((_, st6)) => Ok(
                                (InstrV::Call { vreg, func: text(s, f), args, ty, discard_value }, st6),
                            ),
                        },
                    },
                },
            },
        },
    }
}

/// `jmp #LABEL`.
pub open spec fn p_jmp(s: Seq<u8>, st: PState) -> Result<(InstrV, PState), ParseError> {
    match p_eat(s, st, TokenKind::Jmp) {
        Err(e) => Err(e),
        Ok((_, st1)) => match p_eat(s, st1, TokenKind::Label) {
            Err(e) => Err(e),
            Ok((l, st2)) => Ok((InstrV::Jmp(text(s, l)), st2)),
        },
    }
}

/// `br VALUE, #LABEL, #LABEL`.
pub open spec fn p_br(s: Seq<u8>, st: PState) -> Result<(InstrV, PState), ParseError> {
    match p_eat(s, st, TokenKind::Br) {
        Err(e) => Err(e),
        Ok((_, st1)) => match p_value(s, st1) {
            Err(e) => Err(e),
            Ok((cond, st2)) => match p_eat(s, st2, TokenKind::Comma) {
                Err(e) => Err(e),
                Ok((_, st3)) => match p_eat(s, st3, TokenKind::Label) {
                    Err(e) => Err(e),
                    Ok((t, st4)) => match p_eat(s, st4, TokenKind::Comma) {
                        Err(e) => Err(e),
                        Ok((_, st5)) => match p_eat(s, st5, TokenKind::Label) {
                            Err(e) => Err(e),
                            Ok((f, st6)) => Ok(
                                (InstrV::Br { cond, true_br: text(s, t), false_br: text(s, f) }, st6),
                            ),
                        },
                    },
                },
            },
        },
    }
}

/// An integer literal that must fit `0..=hi`.
pub open spec fn p_uint(s: Seq<u8>, st: PState, hi: int) -> Result<(int, PState), ParseError> {
    match p_eat(s, st, TokenKind::IntLit) {
        Err(e) => Err(e),
        Ok((t, st1)) => match in_range(uint_value(text(s, t)), 0, hi) {
            Some(n) => Ok((n, st1)),
            None => Err(ParseError::InvalidNumber { start: t.span.0, end: t.span.1 }),
        },
    }
}

/// `alloc TYPE[, NUM]`, writing register `vreg`.
pub open spec fn p_alloc(s: Seq<u8>, st: PState, vreg: usize) -> Result<(InstrV, PState), ParseError> {
    match p_eat(s, st, TokenKind::Alloc) {
        Err(e) => Err(e),
        Ok((_, st1)) => match p_type(s, st1) {
            Err(e) => Err(e),
            Ok((ty, st2)) => if pk(s, st2).kind == TokenKind::Comma {
                match p_uint(s, adv(s, st2), u32::MAX as int) {
                    Err(e) => Err(e),
                    Ok((n, st3)) => Ok((InstrV::Alloc { vreg, num: n as u32, ty }, st3)),
                }
            } else {
                Ok((InstrV::Alloc { vreg, num: 1, ty }, st2))
            },
        },
    }
}

/// `store TYPE PTR, VALUE`.
pub open spec fn p_store(s: Seq<u8>, st: PState) -> Result<(InstrV, PState), ParseError> {
    match p_eat(s, st, TokenKind::Store) {
        Err(e) => Err(e),
        Ok((_, st1)) => match p_type(s, st1) {
            Err(e) => Err(e),
            Ok((ty, st2)) => match p_two_values(s, st2) {
                Err(e) => Err(e),
                Ok(((ptr, val), st3)) => Ok((InstrV::Store { ptr, val, ty }, st3)),
            },
        },
    }
}

/// `load TYPE PTR`, writing register `vreg`.
pub open spec fn p_load(s: Seq<u8>, st: PState, vreg: usize) -> Result<(InstrV, PState), ParseError> {
    match p_eat(s, st, TokenKind::Load) {
        Err(e) => Err(e),
        Ok((_, st1)) => match p_type_value(s, st1) {
            Err(e) => Err(e),
            Ok(((ty, ptr), st2)) => Ok((InstrV::Load { vreg, ptr, ty }, st2)),
        },
    }
}

/// `offset PTR, TYPE, IDX`, writing register `vreg`.
pub open spec fn p_offset(s: Seq<u8>, st: PState, vreg: usize) -> Result<(InstrV, PState), ParseError> {
    match p_eat(s, st, TokenKind::Offset) {
        Err(e) => Err(e),
        Ok((_, st1)) => match p_value(s, st1) {
            Err(e) => Err(e),
            Ok((ptr, st2)) => match p_eat(s, st2, TokenKind::Comma) {
                Err(e) => Err(e),
                Ok((_, st3)) => match p_type(s, st3) {
                    Err(e) => Err(e),
                    Ok((ty, st4)) => match p_eat(s, st4, TokenKind::Comma) {
                        Err(e) => Err(e),
                        Ok((_, st5)) => match p_uint(s, st5, usize::MAX as int) {
                            Err(e) => Err(e),
                            Ok((idx, st6)) => Ok((InstrV::Offset { vreg, ptr, idx: idx as usize, ty }, st6)),
                        },
                    },
                },
            },
        },
    }
}

/// The operations that may follow `%r =`: all of them.
pub open spec fn is_assigned_op(k: TokenKind) -> bool {
    op_of_token(k) is Some
}

/// What follows `%r =`, writing register `vreg`.
pub open spec fn p_assigned(s: Seq<u8>, st: PState, vreg: usize) -> Result<(InstrV, PState), ParseError> {
    let t = pk(s, st);
    match t.kind {
        TokenKind::Copy => p_copy(s, st, vreg),
        TokenKind::Call => p_call(s, st, vreg, false),
        TokenKind::Alloc => p_alloc(s, st, vreg),
        TokenKind::Load => p_load(s, st, vreg),
        TokenKind::Offset => p_offset(s, st, vreg),
        _ => if is_assigned_op(t.kind) {
            p_op(s, st, vreg)
        } else {
            Err(ParseError::ExpectedInstruction { found: t.kind, start: t.span.0, end: t.span.1 })
        },
    }
}

/// The register a name stands for: the one last declared with it, or a new one.
pub open spec fn declare(st: PState, name: Seq<u8>) -> (usize, PState) {
    match lookup_local(st.locals, name) {
        Some(v) => (v, st),
        None => (
            st.nreg as usize,
            PState { cur: st.cur, nreg: st.nreg + 1, locals: st.locals.push((name, st.nreg as usize)) },
        ),
    }
}

/// An instruction.
#[verifier::opaque]
pub open spec fn p_ins(s: Seq<u8>, st: PState) -> Result<(InstrV, PState), ParseError> {
    let t = pk(s, st);
    match t.kind {
        TokenKind::Ret => p_ret(s, st),
        TokenKind::Jmp => p_jmp(s, st),
        TokenKind::Br => p_br(s, st),
        TokenKind::Call => p_call(s, st, 0, true),
        TokenKind::Store => p_store(s, st),
        TokenKind::Label => Ok((InstrV::Label(text(s, t)), adv(s, st))),
        TokenKind::Vreg => {
            let (v, st1) = declare(adv(s, st), text(s, t));
            match p_eat(s, st1, TokenKind::Assing) {
                Err(e) => Err(e),
                Ok((_, st2)) => p_assigned(s, st2, v),
            }
        },
        _ => Err(ParseError::ExpectedInstruction { found: t.kind, start: t.span.0, end: t.span.1 }),
    }
}

/// One more instruction of a body, which ends at `}`.
pub open spec fn body_step(s: Seq<u8>) -> spec_fn(PState) -> Step<InstrV> {
    |st: PState|
        if pk(s, st).kind == TokenKind::Rbrace {
            Step::Done(st)
        } else {
            match p_ins(s, st) {
                Err(e) => Step::Fail(e),
                Ok((i, st2)) => Step::More(i, st2),
            }
        }
}

/// `st` with a new register taken.
pub open spec fn bump(st: PState) -> PState {
    PState { nreg: st.nreg + 1, ..st }
}

/// One more parameter of an extern function: a type (then a comma unless `)` follows), or
/// `...`, which is the last; each takes a new register.
pub open spec fn ext_param_step(s: Seq<u8>) -> spec_fn(PState) -> Step<Parameter> {
    |st: PState|
        if pk(s, st).kind == TokenKind::Rparen {
            Step::Done(st)
        } else if pk(s, st).kind == TokenKind::Dots {
            Step::Last(Parameter { vreg: st.nreg as usize, ty: Type::I1, is_vaarg: true }, bump(adv(s, st)))
        } else {
            match p_type(s, bump(st)) {
                Err(e) => Step::Fail(e),
                Ok((ty, st2)) => {
                    let p = Parameter { vreg: st.nreg as usize, ty, is_vaarg: false };
                    if pk(s, st2).kind != TokenKind::Rparen {
                        match p_eat(s, st2, TokenKind::Comma) {
                            Err(e) => Step::Fail(e),
                            Ok((_, st3)) => Step::More(p, st3),
                        }
                    } else {
                        Step::More(p, st2)
                    }
                },
            }
        }
}

/// A named parameter: `%NAME TYPE`, which declares the name as a new register.
pub open spec fn p_named_param(s: Seq<u8>, st: PState) -> Result<(Parameter, PState), ParseError> {
    match p_eat(s, st, TokenKind::Vreg) {
        Err(e) => Err(e),
        Ok((t, st1)) => match p_type(s, bump(st1)) {
            Err(e) => Err(e),
            Ok((ty, st2)) => Ok(
                (
                    Parameter { vreg: st1.nreg as usize, ty, is_vaarg: false },
                    PState { locals: st2.locals.push((text(s, t), st1.nreg as usize)), ..st2 },
                ),
            ),
        },
    }
}

/// One more named parameter: a comma and a parameter, or a comma and `...`, which is the
/// last; the parameters end at anything but a comma.
pub open spec fn named_param_step(s: Seq<u8>) -> spec_fn(PState) -> Step<Parameter> {
    |st: PState|
        if pk(s, st).kind != TokenKind::Comma {
            Step::Done(st)
        } else {
            let st1 = adv(s, st);
            if pk(s, st1).kind == TokenKind::Dots {
                Step::Last(Parameter { vreg: 0, ty: Type::I1, is_vaarg: true }, adv(s, st1))
            } else {
                match p_named_param(s, st1) {
                    Err(e) => Step::Fail(e),
                    Ok((p, st2)) => Step::More(p, st2),
                }
            }
        }
}

/// A function as the parser reads it.
pub struct ParsedFunction {
    pub name: Seq<u8>,
    pub params: Seq<Parameter>,
    pub ty: Type,
    pub body: Seq<InstrV>,
    pub is_extern: bool,
}

/// The named parameters, if the list does not end here.
pub open spec fn p_named_params(s: Seq<u8>, st: PState) -> Result<(Seq<Parameter>, PState), ParseError> {
    if pk(s, st).kind == TokenKind::Rparen {
        Ok((Seq::empty(), st))
    } else {
        match p_named_param(s, st) {
            Err(e) => Err(e),
            Ok((p, st1)) => match run_loop(named_param_step(s), st1) {
                Err(e) => Err(e),
                Ok((rest, st2)) => Ok((seq![p] + rest, st2)),
            },
        }
    }
}

/// The parameters of a function, after its `(`.
pub open spec fn p_params(s: Seq<u8>, st: PState, is_extern: bool) -> Result<(Seq<Parameter>, PState), ParseError> {
    let first = if is_extern {
        run_loop(ext_param_step(s), st)
    } else {
        Ok((Seq::empty(), st))
    };
    match first {
        Err(e) => Err(e),
        Ok((ps1, st1)) => match p_named_params(s, st1) {
            Err(e) => Err(e),
            Ok((ps2, st2)) => Ok((ps1 + ps2, st2)),
        },
    }
}

/// The body of a function: `{`, instructions, `}`.
#[verifier::opaque]
pub open spec fn p_body(s: Seq<u8>, st: PState) -> Result<(Seq<InstrV>, PState), ParseError> {
    match p_eat(s, st, TokenKind::Lbrace) {
        Err(e) => Err(e),
        Ok((_, st1)) => match run_loop(body_step(s), st1) {
            Err(e) => Err(e),
            Ok((body, st2)) => match p_eat(s, st2, TokenKind::Rbrace) {
                Err(e) => Err(e),
                Ok((_, st3)) => Ok((body, st3)),
            },
        },
    }
}

/// `define [extern] @NAME(PARAMS) TYPE [BODY]`: an extern function has no body. Register
/// names are local to their function: the table of names starts empty, and the register
/// numbers taken in the function are given back at its end.
#[verifier::opaque]
pub open spec fn p_function(s: Seq<u8>, st: PState) -> Result<(ParsedFunction, PState), ParseError> {
    match p_eat(s, st, TokenKind::Define) {
        Err(e) => Err(e),
        Ok((_, st0)) => {
            let st1 = PState { locals: Seq::empty(), ..st0 };
            let is_extern = pk(s, st1).kind == TokenKind::Extern;
            let st2 = if is_extern {
                adv(s, st1)
            } else {
                st1
            };
            match p_eat(s, st2, TokenKind::GlobSym) {
                Err(e) => Err(e),
                Ok((name, st3)) => match p_eat(s, st3, TokenKind::Lparen) {
                    Err(e) => Err(e),
                    Ok((_, st4)) => match p_params(s, st4, is_extern) {
                        Err(e) => Err(e),
                        Ok((params, st5)) => match p_eat(s, st5, TokenKind::Rparen) {
                            Err(e) => Err(e),
                            Ok((_, st6)) => match p_type(s, st6) {
                                Err(e) => Err(e),
                                Ok((ty, st7)) => {
                                    let body = if is_extern {
                                        Ok((Seq::<InstrV>::empty(), st7))
                                    } else {
                                        p_body(s, st7)
                                    };
                                    match body {
                                        Err(e) => Err(e),
                                        Ok((b, st8)) => Ok(
                                            (
                                                ParsedFunction { name: text(s, name), params, ty, body: b, is_extern },
                                                PState { nreg: st.nreg, ..st8 },
                                            ),
                                        ),
                                    }
                                },
                            },
                        },
                    },
                },
            }
        },
    }
}

/// A value of `i1` data: 1 when it is positive, 0 otherwise.
pub open spec fn i1_byte(v: int) -> u8 {
    if v > 0 {
        1
    } else {
        0
    }
}

/// One datum of the given type: an `i32` (four bytes, little endian), an `i1` (one byte, 1
/// when positive), an `f32` written as an integer (four bytes), or `ascii` text.
pub open spec fn p_datum(s: Seq<u8>, st: PState, ty: Type) -> Result<(Seq<u8>, PState), ParseError> {
    match ty {
        Type::I32 => match p_eat(s, st, TokenKind::IntLit) {
            Err(e) => Err(e),
            Ok((t, st1)) => match in_range(int_value(text(s, t)), -0x8000_0000, 0x7fff_ffff) {
                Some(v) => Ok((le_bytes32(v), st1)),
                None => Err(ParseError::InvalidNumber { start: t.span.0, end: t.span.1 }),
            },
        },
        Type::I1 => match p_eat(s, st, TokenKind::IntLit) {
            Err(e) => Err(e),
            Ok((t, st1)) => match in_range(int_value(text(s, t)), -128, 127) {
                Some(v) => Ok((seq![i1_byte(v)], st1)),
                None => Err(ParseError::InvalidNumber { start: t.span.0, end: t.span.1 }),
            },
        },
        Type::F32 => match p_eat(s, st, TokenKind::IntLit) {
            Err(e) => Err(e),
            Ok((t, st1)) => match f32_data(text(s, t)) {
                Some(b) => Ok((b, st1)),
                None => Err(ParseError::InvalidNumber { start: t.span.0, end: t.span.1 }),
            },
        },
        Type::Ascii => match p_eat(s, st, TokenKind::AsciiLit) {
            Err(e) => Err(e),
            Ok((t, st1)) => Ok((text(s, t), st1)),
        },
        _ => Err(ParseError::UnsupportedData { ty }),
    }
}

/// One more datum of a global: a type, the datum, and a comma unless `}` follows; the data
/// end at `}`.
pub open spec fn data_step(s: Seq<u8>) -> spec_fn(PState) -> Step<Seq<u8>> {
    |st: PState|
        if pk(s, st).kind == TokenKind::Rbrace {
            Step::Done(st)
        } else {
            match p_type(s, st) {
                Err(e) => Step::Fail(e),
                Ok((ty, st1)) => match p_datum(s, st1, ty) {
                    Err(e) => Step::Fail(e),
                    Ok((b, st2)) => if pk(s, st2).kind != TokenKind::Rbrace {
                        match p_eat(s, st2, TokenKind::Comma) {
                            Err(e) => Step::Fail(e),
                            Ok((_, st3)) => Step::More(b, st3),
                        }
                    } else {
                        Step::More(b, st2)
                    },
                },
            }
        }
}

/// The byte strings, one after the other.
pub open spec fn concat_bytes(xs: Seq<Seq<u8>>) -> Seq<u8>
    decreases xs.len(),
{
    if xs.len() == 0 {
        Seq::empty()
    } else {
        concat_bytes(xs.drop_last()) + xs.last()
    }
}

/// The bytes of two lists of data, one after the other, are the bytes of the first list
/// followed by those of the second.
pub proof fn lemma_concat_bytes_append(a: Seq<Seq<u8>>, b: Seq<Seq<u8>>)
    ensures
        concat_bytes(a + b) == concat_bytes(a) + concat_bytes(b),
    decreases b.len(),
{
    if b.len() == 0 {
        assert(a + b =~= a);
        assert(concat_bytes(a) + concat_bytes(b) =~= concat_bytes(a));
    } else {
        lemma_concat_bytes_append(a, b.drop_last());
        assert((a + b).drop_last() =~= a + b.drop_last());
        assert((a + b).last() == b.last());
        assert(concat_bytes(a) + concat_bytes(b.drop_last()) + b.last() =~= concat_bytes(a) + (concat_bytes(
            b.drop_last(),
        ) + b.last()));
    }
}

/// The data of a global: `{ TYPE DATUM, ... }`, as raw bytes.
pub open spec fn p_global_value(s: Seq<u8>, st: PState) -> Result<(Seq<u8>, PState), ParseError> {
    match p_eat(s, st, TokenKind::Lbrace) {
        Err(e) => Err(e),
        Ok((_, st1)) => match run_loop(data_step(s), st1) {
            Err(e) => Err(e),
            Ok((xs, st2)) => match p_eat(s, st2, TokenKind::Rbrace) {
                Err(e) => Err(e),
                Ok((_, st3)) => Ok((concat_bytes(xs), st3)),
            },
        },
    }
}

/// `data [constant] @NAME = { ... }`.
#[verifier::opaque]
pub open spec fn p_global(s: Seq<u8>, st: PState) -> Result<(GlobDataV, PState), ParseError> {
    match p_eat(s, st, TokenKind::Data) {
        Err(e) => Err(e),
        Ok((_, st1)) => {
            let is_constant = pk(s, st1).kind == TokenKind::Constant;
            let st2 = if is_constant {
                adv(s, st1)
            } else {
                st1
            };
            match p_eat(s, st2, TokenKind::GlobSym) {
                Err(e) => Err(e),
                Ok((name, st3)) => match p_eat(s, st3, TokenKind::Assing) {
                    Err(e) => Err(e),
                    Ok((_, st4)) => match p_global_value(s, st4) {
                        Err(e) => Err(e),
                        Ok((val, st5)) => Ok((GlobDataV { name: text(s, name), val, is_constant }, st5)),
                    },
                },
            }
        },
    }
}

/// An item of a module.
pub enum ItemV {
    Glob(GlobDataV),
    Func(ParsedFunction),
}

/// One more item of a module: a global or a function; the module ends at the end of the
/// source.
pub open spec fn module_step(s: Seq<u8>) -> spec_fn(PState) -> Step<ItemV> {
    |st: PState|
        {
            let t = pk(s, st);
            if t.kind == TokenKind::Eof {
                Step::Done(st)
            } else if t.kind == TokenKind::Data {
                match p_global(s, st) {
                    Err(e) => Step::Fail(e),
                    Ok((g, st2)) => Step::More(ItemV::Glob(g), st2),
                }
            } else if t.kind == TokenKind::Define {
                match p_function(s, st) {
                    Err(e) => Step::Fail(e),
                    Ok((f, st2)) => Step::More(ItemV::Func(f), st2),
                }
            } else {
                Step::Fail(ParseError::ExpectedItem { found: t.kind, start: t.span.0, end: t.span.1 })
            }
        }
}

/// The globals among the items, in order.
pub open spec fn globals_of(items: Seq<ItemV>) -> Seq<GlobDataV>
    decreases items.len(),
{
    if items.len() == 0 {
        Seq::empty()
    } else {
        match items.last() {
            ItemV::Glob(g) => globals_of(items.drop_last()).push(g),
            ItemV::Func(_) => globals_of(items.drop_last()),
        }
    }
}

/// The functions among the items, in order.
pub open spec fn functions_of(items: Seq<ItemV>) -> Seq<ParsedFunction>
    decreases items.len(),
{
    if items.len() == 0 {
        Seq::empty()
    } else {
        match items.last() {
            ItemV::Func(f) => functions_of(items.drop_last()).push(f),
            ItemV::Glob(_) => functions_of(items.drop_last()),
        }
    }
}

/// The items of a module, up to the end of the source.
pub open spec fn p_module(s: Seq<u8>, st: PState) -> Result<(Seq<ItemV>, PState), ParseError> {
    run_loop(module_step(s), st)
}

/// `f` is the function `p` as the parser reads it, with an empty control flow graph.
pub open spec fn is_parsed_function(f: FunctionV, p: ParsedFunction) -> bool {
    &&& f.name == p.name
    &&& f.params == p.params
    &&& f.ty == p.ty
    &&& f.body == p.body
    &&& f.is_extern == p.is_extern
    &&& f.cfg.blocks.len() == 0
    &&& f.cfg.forward.len() == 0
    &&& f.cfg.backward.len() == 0
}

/// `m` is the module named `name` with the items `items`.
pub open spec fn is_parsed_module(m: ModuleV, name: Seq<u8>, items: Seq<ItemV>) -> bool {
    let fs = functions_of(items);
    &&& m.name == name
    &&& m.globals == globals_of(items)
    &&& m.functions.len() == fs.len()
    &&& forall|i: int| 0 <= i < fs.len() ==> is_parsed_function(#[trigger] m.functions[i], fs[i])
}


// ---------------------------------------------------------------------------------------
// Numbers, computed

proof fn lemma_dec_val_push(t: Seq<u8>, d: u8)
    ensures
        dec_val(t.push(d)) == dec_val(t) * 10 + (d - 48) as nat,
{
    assert(t.push(d).drop_last() =~= t);
}

proof fn lemma_dec_val_grows(t: Seq<u8>, i: int, j: int)
    requires
        0 <= i <= j <= t.len(),
        all_digits(t),
    ensures
        dec_val(t.take(i)) <= dec_val(t.take(j)),
    decreases j - i,
{
    if i < j {
        lemma_dec_val_grows(t, i, j - 1);
        assert(t.take(j) =~= t.take(j - 1).push(t[j - 1]));
        lemma_dec_val_push(t.take(j - 1), t[j - 1]);
    }
}

/// The value of the digits `src[start..end]` when they are all digits, at least one, and
/// the value is at most `cap`; `None` otherwise, and `over` tells whether it was because
/// the value is larger than `cap`.
fn parse_digits(src: &Vec<u8>, start: usize, end: usize, cap: u128) -> (r: (Option<u128>, bool))
    requires
        start <= end <= src@.len(),
    ensures
        ({
            let t = src@.subrange(start as int, end as int);
            &&& t.len() > 0 && all_digits(t) && dec_val(t) <= cap ==> r.0 == Some(dec_val(t) as u128)
            &&& !(t.len() > 0 && all_digits(t) && dec_val(t) <= cap) ==> r.0 is None
            &&& r.1 <==> (t.len() > 0 && all_digits(t) && dec_val(t) > cap)
        }),
{
    let ghost t = src@.subrange(start as int, end as int);
    if start == end {
        return (None, false);
    }
    let mut i: usize = start;
    while i < end
        invariant
            start <= i <= end <= src@.len(),
            t == src@.subrange(start as int, end as int),
            forall|j: int| start <= j < i ==> 48 <= #[trigger] src@[j] <= 57,
        decreases end - i,
    {
        if src[i] < 48 || src[i] > 57 {
            proof {
                assert(t[i - start] == src@[i as int]);
            }
            return (None, false);
        }
        i = i + 1;
    }
    assert(all_digits(t)) by {
        assert forall|j: int| 0 <= j < t.len() implies 48 <= #[trigger] t[j] <= 57 by {
            assert(t[j] == src@[start + j]);
        }
    }
    let mut v: u128 = 0;
    let mut i: usize = start;
    while i < end
        invariant
            start <= i <= end <= src@.len(),
            t == src@.subrange(start as int, end as int),
            all_digits(t),
            v == dec_val(t.take(i - start)),
            v <= cap,
        decreases end - i,
    {
        proof {
            assert(t[i - start] == src@[i as int]);
            assert(48 <= t[i - start] <= 57);
            assert(t.take(i - start + 1) =~= t.take(i - start).push(t[i - start]));
            lemma_dec_val_push(t.take(i - start), t[i - start]);
        }
        let d = (src[i] - 48) as u128;
        let over = if v > cap / 10 {
            true
        } else {
            assert(v * 10 <= cap) by (nonlinear_arith)
                requires
                    v <= cap / 10,
            ;
            d > cap - v * 10
        };
        if over {
            proof {
                assert(v * 10 + d > cap) by (nonlinear_arith)
                    requires
                        v > cap / 10 || (v * 10 <= cap && d > cap - v * 10),
                ;
                lemma_dec_val_grows(t, i - start + 1, t.len() as int);
                assert(t.take(t.len() as int) =~= t);
            }
            return (None, true);
        }
        v = v * 10 + d;
        i = i + 1;
    }
    proof {
        assert(t.take(end - start) =~= t);
    }
    (Some(v), false)
}

/// The number of bits of `n`, less one.
fn top_bit(n: u128) -> (e: u32)
    requires
        n > 0,
    ensures
        e as nat == bit_len(n as nat) - 1,
        e < 128,
{
    let mut x = n;
    let mut e: u32 = 0;
    proof {
        lemma_bit_len_bound(n as nat);
    }
    while x > 1
        invariant
            x >= 1,
            bit_len(x as nat) + e == bit_len(n as nat),
            bit_len(n as nat) <= 128,
        decreases x,
    {
        proof {
            assert(bit_len(x as nat) == 1 + bit_len((x / 2) as nat));
            assert(bit_len((x / 2) as nat) >= 1);
        }
        x = x / 2;
        e = e + 1;
    }
    proof {
        assert(bit_len(1) == 1 + bit_len(0));
    }
    e
}

proof fn lemma_bit_len_bound(n: nat)
    requires
        n <= u128::MAX,
    ensures
        bit_len(n) <= 128,
{
    lemma_bit_len_pow(n);
    if bit_len(n) > 128 {
        lemma_pow2_mono(128, (bit_len(n) - 1) as nat);
        lemma_pow2_consts();
    }
}

proof fn lemma_pow2_mono(a: nat, b: nat)
    requires
        a <= b,
    ensures
        pow2(a) <= pow2(b),
    decreases b,
{
    if a < b {
        lemma_pow2_mono(a, (b - 1) as nat);
    }
}

/// `n` has `bit_len(n)` bits.
proof fn lemma_bit_len_pow(n: nat)
    ensures
        n > 0 ==> pow2((bit_len(n) - 1) as nat) <= n < pow2(bit_len(n)),
    decreases n,
{
    if n > 1 {
        lemma_bit_len_pow(n / 2);
        assert(bit_len(n) == 1 + bit_len(n / 2));
        let h = n / 2;
        assert(h > 0);
        assert(pow2(bit_len(n)) == 2 * pow2(bit_len(h)));
        assert(pow2((bit_len(n) - 1) as nat) == pow2(bit_len(h)));
        assert(2 * h <= n <= 2 * h + 1);
    } else if n == 1 {
        assert(bit_len(1) == 1 + bit_len(0));
        assert(pow2(1) == 2 * pow2(0));
    }
}

/// `2` to the `k`.
fn pow2_exec(k: u32) -> (p: u128)
    requires
        k < 128,
    ensures
        p as nat == pow2(k as nat),
{
    let mut p: u128 = 1;
    let mut i: u32 = 0;
    proof {
        lemma_pow2_mono(k as nat, 127);
        lemma_pow2_consts();
    }
    while i < k
        invariant
            i <= k < 128,
            p as nat == pow2(i as nat),
            pow2(k as nat) <= 0x8000_0000_0000_0000_0000_0000_0000_0000,
        decreases k - i,
    {
        proof {
            lemma_pow2_mono((i + 1) as nat, k as nat);
        }
        p = p * 2;
        i = i + 1;
    }
    p
}

proof fn lemma_pow2_consts()
    ensures
        pow2(23) == 0x80_0000,
        pow2(24) == 0x100_0000,
        pow2(127) == 0x8000_0000_0000_0000_0000_0000_0000_0000,
        pow2(128) == 0x1_0000_0000_0000_0000_0000_0000_0000_0000,
{
    reveal_with_fuel(pow2, 9);
    assert(pow2(8) == 256);
    lemma_pow2_add(8, 8);
    assert(pow2(16) == 65536);
    lemma_pow2_add(16, 8);
    assert(pow2(24) == 0x100_0000);
    lemma_pow2_add(16, 16);
    assert(pow2(32) == 0x1_0000_0000);
    lemma_pow2_add(32, 32);
    assert(pow2(64) == 0x1_0000_0000_0000_0000);
    lemma_pow2_add(64, 64);
    assert(pow2(128) == 0x1_0000_0000_0000_0000_0000_0000_0000_0000);
    assert(pow2(24) == 2 * pow2(23));
    assert(pow2(128) == 2 * pow2(127));
}

proof fn lemma_pow2_add(a: nat, b: nat)
    ensures
        pow2(a) * pow2(b) == pow2(a + b),
    decreases b,
{
    if b > 0 {
        let b1 = (b - 1) as nat;
        lemma_pow2_add(a, b1);
        let x = pow2(a);
        let y = pow2(b1);
        assert(pow2(a + b) == 2 * pow2((a + b1) as nat));
        assert(pow2(b) == 2 * y);
        assert(x * (2 * y) == 2 * (x * y)) by (nonlinear_arith);
        assert(x * pow2(b) == 2 * (x * y));
    } else {
        assert(pow2(0) == 1);
        assert(pow2(a) * 1 == pow2(a));
        assert(a + b == a);
    }
}

/// The bits of the single precision float nearest to `neg ? -n : n`.
fn f32_bits_exec(neg: bool, n: u128) -> (r: u32)
    ensures
        r == f32_bits(neg, n as nat),
{
    let sign: u128 = if neg {
        0x8000_0000
    } else {
        0
    };
    if n == 0 {
        return sign as u32;
    }
    let e = top_bit(n);
    proof {
        lemma_bit_len_pow(n as nat);
        lemma_pow2_consts();
    }
    if e <= 23 {
        let p = pow2_exec(23 - e);
        proof {
            lemma_pow2_mono(0, (23 - e) as nat);
            lemma_pow2_add(e as nat, (23 - e) as nat);
            lemma_pow2_add((e + 1) as nat, (23 - e) as nat);
            assert(((e + 1) + (23 - e)) as nat == 24);
            let lo = pow2(e as nat);
            let hi = pow2((e + 1) as nat);
            assert(n * p >= lo * p) by (nonlinear_arith)
                requires
                    n >= lo,
                    p >= 0,
            ;
            assert(n * p < hi * p) by (nonlinear_arith)
                requires
                    n < hi,
                    p > 0,
            ;
        }
        let m = n * p;
        return (sign + (e as u128 + 127) * 0x80_0000 + (m - 0x80_0000)) as u32;
    }
    let sh = e - 23;
    let p = pow2_exec(sh);
    let half = pow2_exec(sh - 1);
    proof {
        lemma_pow2_mono(0, sh as nat);
    }
    let m = n / p;
    let rem = n % p;
    proof {
        lemma_pow2_add(23, sh as nat);
        lemma_pow2_add(24, sh as nat);
        assert((23 + sh) as nat == e as nat);
        assert((24 + sh) as nat == (e + 1) as nat);
        let q = pow2(sh as nat);
        assert(q > 0) by {
            lemma_pow2_mono(0, sh as nat);
        }
        let nn = n as nat;
        assert(nn / q >= 0x80_0000) by (nonlinear_arith)
            requires
                nn >= 0x80_0000 * q,
                q > 0,
        ;
        assert(nn / q < 0x100_0000) by (nonlinear_arith)
            requires
                nn < 0x100_0000 * q,
                q > 0,
        ;
    }
    let up = rem > half || (rem == half && m % 2 == 1);
    let m2 = if up {
        m + 1
    } else {
        m
    };
    let m3: u128;
    let e3: u32;
    if m2 == 0x100_0000 {
        m3 = 0x80_0000;
        e3 = e + 1;
    } else {
        m3 = m2;
        e3 = e;
    }
    if e3 >= 128 {
        return (sign + 0x7f80_0000) as u32;
    }
    (sign + (e3 as u128 + 127) * 0x80_0000 + (m3 - 0x80_0000)) as u32
}

/// The integer that the text `src[start..end]` of an integer literal denotes, if it lies
/// within `-neg_cap..=pos_cap`: whether the text is negative, and the magnitude.
fn parse_int_in(src: &Vec<u8>, start: usize, end: usize, neg_cap: u128, pos_cap: u128) -> (r: Option<(bool, u128)>)
    requires
        start <= end <= src@.len(),
    ensures
        ({
            let t = src@.subrange(start as int, end as int);
            let v = in_range(int_value(t), -(neg_cap as int), pos_cap as int);
            &&& (r is Some <==> v is Some)
            &&& r matches Some((neg, mag)) ==> neg == (t.len() > 0 && t[0] == 45) && v.unwrap() == (if neg {
                -(mag as int)
            } else {
                mag as int
            })
        }),
{
    let ghost t = src@.subrange(start as int, end as int);
    if start < end && src[start] == 45 {
        proof {
            assert(t.skip(1) =~= src@.subrange(start + 1, end as int));
        }
        let (d, _) = parse_digits(src, start + 1, end, neg_cap);
        match d {
            Some(m) => Some((true, m)),
            None => None,
        }
    } else {
        let (d, _) = parse_digits(src, start, end, pos_cap);
        match d {
            Some(m) => Some((false, m)),
            None => None,
        }
    }
}

/// The four bytes of a value of `-2^31..2^32`, given by sign and magnitude, little endian.
fn le_bytes32_exec(neg: bool, mag: u128) -> (r: Vec<u8>)
    requires
        neg ==> mag <= 0x8000_0000,
        !neg ==> mag <= 0xffff_ffff,
    ensures
        r@ == le_bytes32(if neg {
            -(mag as int)
        } else {
            mag as int
        }),
{
    let u: u64 = if neg && mag > 0 {
        (0x1_0000_0000u128 - mag) as u64
    } else {
        mag as u64
    };
    let mut r: Vec<u8> = Vec::new();
    r.push((u % 256) as u8);
    r.push(((u / 256) % 256) as u8);
    r.push(((u / 65536) % 256) as u8);
    r.push(((u / 16777216) % 256) as u8);
    let ghost x: int = if neg {
        -(mag as int)
    } else {
        mag as int
    };
    assert(r@ =~= le_bytes32(x));
    r
}

/// The registers declared so far, as the view sees them.
pub open spec fn view_local(p: (Vec<u8>, usize)) -> (Seq<u8>, usize) {
    (p.0@, p.1)
}

/// The parser: the lexer, the source, the next register number and the registers declared
/// so far with their names.
pub struct IrParser {
    lexer: IrLexer,
    src: Vec<u8>,
    curr_vreg: usize,
    local: Vec<(Vec<u8>, usize)>,
}

impl IrParser {
    /// The source being parsed.
    pub closed spec fn source(&self) -> Seq<u8> {
        self.src@
    }

    /// The state of the parse.
    pub closed spec fn state(&self) -> PState {
        PState {
            cur: self.lexer@.cursor as int,
            nreg: self.curr_vreg as nat,
            locals: self.local@.map_values(|p: (Vec<u8>, usize)| view_local(p)),
        }
    }

    /// The parser can go on.
    pub closed spec fn wf(&self) -> bool {
        &&& self.lexer.wf()
        &&& self.lexer@.source == self.src@
        &&& self.src@.len() + 2 < u32::MAX
        &&& self.curr_vreg <= self.lexer@.cursor
    }

    /// A parser at the start of `src`.
    pub fn new(src: &str) -> (r: Self)
        requires
            src.spec_bytes().len() + 2 < u32::MAX,
        ensures
            r.wf(),
            r.source() == src.spec_bytes(),
            r.state() == (PState { cur: 0, nreg: 0, locals: Seq::empty() }),
    {
        let lexer = IrLexer::new(src);
        let r = IrParser {
            lexer,
            src: vstd::slice::slice_to_vec(src.as_bytes()),
            curr_vreg: 0,
            local: Vec::new(),
        };
        assert(r.state().locals =~= Seq::<(Seq<u8>, usize)>::empty());
        r
    }

    /// The next token; the parser moves past it.
    fn next(&mut self) -> (r: Token)
        requires
            old(self).wf(),
        ensures
            final(self).wf(),
            final(self).source() == old(self).source(),
            r == pk(old(self).source(), old(self).state()),
            final(self).state() == adv(old(self).source(), old(self).state()),
            final(self).state().cur >= old(self).state().cur,
            r.kind != TokenKind::Eof && r.kind != TokenKind::Error ==> final(self).state().cur > old(self).state().cur
                && r.span.0 <= r.span.1 <= old(self).source().len(),
    {
        proof {
            self.lexer.lemma_wf();
            lemma_lex_bounds(self.src@, self.lexer@.cursor as int);
            lemma_lex_span(self.src@, self.lexer@.cursor as int);
        }
        self.lexer.next_token()
    }

    /// The next token, without moving.
    fn peek(&mut self) -> (r: Token)
        requires
            old(self).wf(),
        ensures
            final(self).wf(),
            final(self).source() == old(self).source(),
            final(self).state() == old(self).state(),
            r == pk(old(self).source(), old(self).state()),
    {
        self.lexer.peek_token()
    }

    /// The number of a new register.
    fn next_vreg(&mut self) -> (r: usize)
        requires
            old(self).curr_vreg < usize::MAX,
        ensures
            r == old(self).state().nreg,
            final(self).state() == bump(old(self).state()),
            final(self).lexer == old(self).lexer,
            final(self).src == old(self).src,
    {
        let curr = self.curr_vreg;
        self.curr_vreg = self.curr_vreg + 1;
        curr
    }

    /// The next token, which must be of kind `kind`.
    fn eat(&mut self, kind: TokenKind) -> (r: Result<Token, ParseError>)
        requires
            old(self).wf(),
            kind != TokenKind::Eof,
            kind != TokenKind::Error,
        ensures
            final(self).source() == old(self).source(),
            match p_eat(old(self).source(), old(self).state(), kind) {
                Ok((tk, st)) => r == Ok::<Token, ParseError>(tk) && final(self).state() == st && final(self).wf()
                    && st.cur > old(self).state().cur && tk.span.0 <= tk.span.1 <= old(self).source().len(),
                Err(e) => r == Err::<Token, ParseError>(e),
            },
    {
        let tk = self.peek();
        if tk.kind != kind {
            return Err(ParseError::UnexpectedToken { expected: kind, found: tk.kind, start: tk.span.0, end: tk.span.1 });
        }
        Ok(self.next())
    }

    /// The text of a token.
    fn text_of(&self, tk: Token) -> (r: Vec<u8>)
        requires
            self.wf(),
            tk.span.0 <= tk.span.1 <= self.source().len(),
        ensures
            r@ == text(self.source(), tk),
    {
        let mut r: Vec<u8> = Vec::new();
        let mut i: usize = tk.span.0 as usize;
        while i < tk.span.1 as usize
            invariant
                tk.span.0 <= i <= tk.span.1 <= self.src@.len(),
                r@ == self.src@.subrange(tk.span.0 as int, i as int),
            decreases tk.span.1 - i,
        {
            r.push(self.src[i]);
            assert(r@ =~= self.src@.subrange(tk.span.0 as int, i + 1));
            i = i + 1;
        }
        r
    }

    /// The register last declared with the name `name`.
    fn lookup(&self, name: &Vec<u8>) -> (r: Option<usize>)
        ensures
            r == lookup_local(self.state().locals, name@),
    {
        let ghost l = self.state().locals;
        let mut i: usize = self.local.len();
        assert(l.take(i as int) =~= l);
        while i > 0
            invariant
                i <= self.local@.len(),
                l == self.state().locals,
                lookup_local(l, name@) == lookup_local(l.take(i as int), name@),
            decreases i,
        {
            proof {
                assert(l.take(i as int).drop_last() =~= l.take(i - 1));
                assert(l.take(i as int).last() == view_local(self.local@[i - 1]));
            }
            if crate::module::instruction::bytes_eq(&self.local[i - 1].0, name) {
                return Some(self.local[i - 1].1);
            }
            i = i - 1;
        }
        proof {
            assert(l.take(0) =~= Seq::<(Seq<u8>, usize)>::empty());
        }
        None
    }
}


impl IrParser {
    /// A value.
    fn parse_value(&mut self) -> (r: Result<Value, ParseError>)
        requires
            old(self).wf(),
        ensures
            final(self).source() == old(self).source(),
            match p_value(old(self).source(), old(self).state()) {
                Ok((v, st)) => r matches Ok(x) && x@ == v && final(self).state() == st && final(self).wf() && st.cur
                    > old(self).state().cur,
                Err(e) => r == Err::<Value, ParseError>(e),
            },
    {
        let tk = self.next();
        match tk.kind {
            TokenKind::IntLit => {
                let start = tk.span.0 as usize;
                let end = tk.span.1 as usize;
                if start < end && self.src[start] == 45 {
                    match parse_int_in(&self.src, start, end, isize::MAX as u128 + 1, isize::MAX as u128) {
                        Some((_, m)) => {
                            let v: usize = if m == 0 {
                                0
                            } else {
                                usize::MAX - ((m - 1) as usize)
                            };
                            Ok(Value::IntLit(v))
                        },
                        None => Err(ParseError::InvalidNumber { start: tk.span.0, end: tk.span.1 }),
                    }
                } else {
                    match parse_int_in(&self.src, start, end, 0, usize::MAX as u128) {
                        Some((_, m)) => Ok(Value::IntLit(m as usize)),
                        None => Err(ParseError::InvalidNumber { start: tk.span.0, end: tk.span.1 }),
                    }
                }
            },
            TokenKind::FloatLit => Ok(Value::FloatLit(self.text_of(tk))),
            TokenKind::Vreg => {
                let name = self.text_of(tk);
                match self.lookup(&name) {
                    Some(v) => Ok(Value::Vreg(v)),
                    None => Err(ParseError::UndeclaredVreg { start: tk.span.0, end: tk.span.1 }),
                }
            },
            TokenKind::GlobSym => Ok(Value::GlobSym(self.text_of(tk))),
            _ => Err(ParseError::ExpectedValue { found: tk.kind, start: tk.span.0, end: tk.span.1 }),
        }
    }

    /// A type.
    fn parse_type(&mut self) -> (r: Result<Type, ParseError>)
        requires
            old(self).wf(),
        ensures
            final(self).source() == old(self).source(),
            match p_type(old(self).source(), old(self).state()) {
                Ok((ty, st)) => r == Ok::<Type, ParseError>(ty) && final(self).state() == st && final(self).wf() && st.cur
                    > old(self).state().cur,
                Err(e) => r == Err::<Type, ParseError>(e),
            },
    {
        let tk = self.next();
        match tk.kind {
            TokenKind::I32 => Ok(Type::I32),
            TokenKind::I1 => Ok(Type::I1),
            TokenKind::F32 => Ok(Type::F32),
            TokenKind::Ptr => Ok(Type::Ptr),
            TokenKind::Ascii => Ok(Type::Ascii),
            TokenKind::Void => Ok(Type::Void),
            _ => Err(ParseError::ExpectedType { found: tk.kind, start: tk.span.0, end: tk.span.1 }),
        }
    }

    /// A type, then a value.
    fn parse_type_value(&mut self) -> (r: Result<(Type, Value), ParseError>)
        requires
            old(self).wf(),
        ensures
            final(self).source() == old(self).source(),
            match p_type_value(old(self).source(), old(self).state()) {
                Ok(((ty, v), st)) => r matches Ok(x) && x.0 == ty && x.1@ == v && final(self).state() == st
                    && final(self).wf() && st.cur > old(self).state().cur,
                Err(e) => r == Err::<(Type, Value), ParseError>(e),
            },
    {
        let ty = self.parse_type()?;
        let v = self.parse_value()?;
        Ok((ty, v))
    }

    /// A value, a comma and a value.
    fn parse_two_values(&mut self) -> (r: Result<(Value, Value), ParseError>)
        requires
            old(self).wf(),
        ensures
            final(self).source() == old(self).source(),
            match p_two_values(old(self).source(), old(self).state()) {
                Ok(((a, b), st)) => r matches Ok(x) && x.0@ == a && x.1@ == b && final(self).state() == st
                    && final(self).wf() && st.cur > old(self).state().cur,
                Err(e) => r == Err::<(Value, Value), ParseError>(e),
            },
    {
        let a = self.parse_value()?;
        self.eat(TokenKind::Comma)?;
        let b = self.parse_value()?;
        Ok((a, b))
    }
}


/// The exec parse `r` of an instruction agrees with the grammar's result `sp`.
pub open spec fn ins_parsed(
    r: Result<Instruction, ParseError>,
    sp: Result<(InstrV, PState), ParseError>,
    before: PState,
    after: PState,
    after_wf: bool,
) -> bool {
    match sp {
        Ok((i, st)) => r matches Ok(x) && x@ == i && after == st && after_wf && st.cur > before.cur,
        Err(e) => r == Err::<Instruction, ParseError>(e),
    }
}

pub open spec fn view_args(a: Seq<(Type, Value)>) -> Seq<(Type, ValueV)> {
    a.map_values(|x: (Type, Value)| crate::module::instruction::view_arg(x))
}

impl IrParser {
    /// The position never lies past the end of the source by more than one.
    proof fn lemma_bounds(&self)
        requires
            self.wf(),
        ensures
            0 <= self.state().cur <= self.source().len() + 1,
            self.source().len() + 2 < u32::MAX,
            self.state().nreg <= self.state().cur,
    {
        self.lexer.lemma_wf();
    }

    fn parse_ins_ret(&mut self) -> (r: Result<Instruction, ParseError>)
        requires
            old(self).wf(),
        ensures
            final(self).source() == old(self).source(),
            ins_parsed(r, p_ret(old(self).source(), old(self).state()), old(self).state(), final(self).state(), final(self).wf()),
    {
        self.eat(TokenKind::Ret)?;
        let ty = self.parse_type()?;
        if ty == Type::Void {
            return Ok(Instruction::Ret { val: Value::Void, ty });
        }
        let val = self.parse_value()?;
        Ok(Instruction::Ret { val, ty })
    }

    fn parse_ins_copy(&mut self, vreg: usize) -> (r: Result<Instruction, ParseError>)
        requires
            old(self).wf(),
        ensures
            final(self).source() == old(self).source(),
            ins_parsed(r, p_copy(old(self).source(), old(self).state(), vreg), old(self).state(), final(self).state(), final(self).wf()),
    {
        self.eat(TokenKind::Copy)?;
        let (ty, val) = self.parse_type_value()?;
        Ok(Instruction::Copy { vreg, val, ty })
    }

    fn parse_ins_op(&mut self, vreg: usize) -> (r: Result<Instruction, ParseError>)
        requires
            old(self).wf(),
        ensures
            final(self).source() == old(self).source(),
            ins_parsed(r, p_op(old(self).source(), old(self).state(), vreg), old(self).state(), final(self).state(), final(self).wf()),
    {
        let tk = self.next();
        let kind = match tk.kind {
            TokenKind::Add => OpKind::Add,
            TokenKind::Sub => OpKind::Sub,
            TokenKind::Mul => OpKind::Mul,
            TokenKind::Div => OpKind::Div,
            TokenKind::Udiv => OpKind::Udiv,
            TokenKind::Ceq => OpKind::CmpEq,
            TokenKind::Cne => OpKind::CmpNe,
            TokenKind::Cslt => OpKind::CmpSlt,
            TokenKind::Cult => OpKind::CmpUlt,
            TokenKind::Csgt => OpKind::CmpSgt,
            TokenKind::Cugt => OpKind::CmpUgt,
            _ => {
                return Err(ParseError::ExpectedInstruction { found: tk.kind, start: tk.span.0, end: tk.span.1 });
            },
        };
        let ty = self.parse_type()?;
        let (lhs, rhs) = self.parse_two_values()?;
        Ok(Instruction::Op { vreg, kind, lhs, rhs, ty })
    }

    /// The arguments of a call, up to its `)`.
    fn parse_args(&mut self) -> (r: Result<Vec<(Type, Value)>, ParseError>)
        requires
            old(self).wf(),
        ensures
            final(self).source() == old(self).source(),
            match p_args(old(self).source(), old(self).state()) {
                Ok((args, st)) => r matches Ok(x) && view_args(x@) == args && final(self).state() == st && final(self).wf()
                    && st.cur >= old(self).state().cur,
                Err(e) => r == Err::<Vec<(Type, Value)>, ParseError>(e),
            },
    {
        let ghost s = self.source();
        let mut args: Vec<(Type, Value)> = Vec::new();
        if self.peek().kind == TokenKind::Rparen {
            assert(view_args(args@) =~= Seq::<(Type, ValueV)>::empty());
            return Ok(args);
        }
        let first = self.parse_type_value()?;
        args.push(first);
        let ghost st0 = self.state();
        let ghost first_v = (first.0, first.1@);
        let ghost mut k: nat = 0;
        proof {
            assert(view_args(args@) =~= seq![first_v]);
            assert(view_args(args@).skip(1) =~= Seq::<(Type, ValueV)>::empty());
        }
        let mut more = self.peek().kind == TokenKind::Comma;
        while more
            invariant
                self.wf(),
                self.source() == s,
                s == old(self).source(),
                pk(s, old(self).state()).kind != TokenKind::Rparen,
                p_type_value(s, old(self).state()) == Ok::<((Type, ValueV), PState), ParseError>((first_v, st0)),
                st0.cur > old(self).state().cur,
                iterate(arg_step(s), st0, k) == Some((view_args(args@).skip(1), self.state())),
                view_args(args@).len() >= 1,
                view_args(args@)[0] == first_v,
                more == (pk(s, self.state()).kind == TokenKind::Comma),
                self.state().cur >= st0.cur,
            decreases s.len() + 2 - self.state().cur,
        {
            proof {
                self.lemma_bounds();
            }
            let ghost st1 = self.state();
            self.next();
            let ghost xs = view_args(args@).skip(1);
            match self.parse_type_value() {
                Ok(a) => {
                    proof {
                        lemma_iterate_next(arg_step(s), st0, k, xs, st1, (a.0, a.1@), self.state());
                    }
                    let ghost prev = args@;
                    args.push(a);
                    proof {
                        assert(view_args(args@) =~= view_args(prev).push((a.0, a.1@)));
                        assert(view_args(args@).skip(1) =~= xs.push((a.0, a.1@)));
                        k = k + 1;
                    }
                },
                Err(e) => {
                    proof {
                        lemma_loop_result(arg_step(s), st0, k, Err(e));
                    }
                    return Err(e);
                },
            }
            more = self.peek().kind == TokenKind::Comma;
            proof {
                self.lemma_bounds();
            }
        }
        proof {
            lemma_loop_result(arg_step(s), st0, k, Ok((view_args(args@).skip(1), self.state())));
            assert(seq![first_v] + view_args(args@).skip(1) =~= view_args(args@));
        }
        Ok(args)
    }

    fn parse_ins_call(&mut self, vreg: usize, discard_value: bool) -> (r: Result<Instruction, ParseError>)
        requires
            old(self).wf(),
        ensures
            final(self).source() == old(self).source(),
            ins_parsed(
                r,
                p_call(old(self).source(), old(self).state(), vreg, discard_value),
                old(self).state(),
                final(self).state(),
                final(self).wf(),
            ),
    {
        self.eat(TokenKind::Call)?;
        let ty = self.parse_type()?;
        let func_tk = self.eat(TokenKind::GlobSym)?;
        let func = self.text_of(func_tk);
        self.eat(TokenKind::Lparen)?;
        let args = self.parse_args()?;
        self.eat(TokenKind::Rparen)?;
        Ok(Instruction::Call { vreg, func, args, ty, discard_value })
    }

    fn parse_ins_jmp(&mut self) -> (r: Result<Instruction, ParseError>)
        requires
            old(self).wf(),
        ensures
            final(self).source() == old(self).source(),
            ins_parsed(r, p_jmp(old(self).source(), old(self).state()), old(self).state(), final(self).state(), final(self).wf()),
    {
        self.eat(TokenKind::Jmp)?;
        let label = self.eat(TokenKind::Label)?;
        Ok(Instruction::Jmp(self.text_of(label)))
    }

    fn parse_ins_br(&mut self) -> (r: Result<Instruction, ParseError>)
        requires
            old(self).wf(),
        ensures
            final(self).source() == old(self).source(),
            ins_parsed(r, p_br(old(self).source(), old(self).state()), old(self).state(), final(self).state(), final(self).wf()),
    {
        self.eat(TokenKind::Br)?;
        let cond = self.parse_value()?;
        self.eat(TokenKind::Comma)?;
        let true_br = self.eat(TokenKind::Label)?;
        self.eat(TokenKind::Comma)?;
        let false_br = self.eat(TokenKind::Label)?;
        Ok(Instruction::Br { cond, true_br: self.text_of(true_br), false_br: self.text_of(false_br) })
    }

    /// An integer literal that must fit `0..=hi`.
    fn parse_uint(&mut self, hi: u128) -> (r: Result<u128, ParseError>)
        requires
            old(self).wf(),
        ensures
            final(self).source() == old(self).source(),
            match p_uint(old(self).source(), old(self).state(), hi as int) {
                Ok((n, st)) => r matches Ok(x) && x == n && final(self).state() == st && final(self).wf() && st.cur
                    > old(self).state().cur,
                Err(e) => r == Err::<u128, ParseError>(e),
            },
    {
        let tk = self.eat(TokenKind::IntLit)?;
        match parse_digits(&self.src, tk.span.0 as usize, tk.span.1 as usize, hi) {
            (Some(n), _) => Ok(n),
            (None, _) => Err(ParseError::InvalidNumber { start: tk.span.0, end: tk.span.1 }),
        }
    }

    fn parse_ins_alloc(&mut self, vreg: usize) -> (r: Result<Instruction, ParseError>)
        requires
            old(self).wf(),
        ensures
            final(self).source() == old(self).source(),
            ins_parsed(r, p_alloc(old(self).source(), old(self).state(), vreg), old(self).state(), final(self).state(), final(self).wf()),
    {
        self.eat(TokenKind::Alloc)?;
        let ty = self.parse_type()?;
        let num: u32 = if self.peek().kind == TokenKind::Comma {
            self.next();
            let n = self.parse_uint(u32::MAX as u128)?;
            n as u32
        } else {
            1
        };
        Ok(Instruction::Alloc { vreg, ty, num })
    }

    fn parse_ins_store(&mut self) -> (r: Result<Instruction, ParseError>)
        requires
            old(self).wf(),
        ensures
            final(self).source() == old(self).source(),
            ins_parsed(r, p_store(old(self).source(), old(self).state()), old(self).state(), final(self).state(), final(self).wf()),
    {
        self.eat(TokenKind::Store)?;
        let ty = self.parse_type()?;
        let (ptr, val) = self.parse_two_values()?;
        Ok(Instruction::Store { ptr, val, ty })
    }

    fn parse_ins_load(&mut self, vreg: usize) -> (r: Result<Instruction, ParseError>)
        requires
            old(self).wf(),
        ensures
            final(self).source() == old(self).source(),
            ins_parsed(r, p_load(old(self).source(), old(self).state(), vreg), old(self).state(), final(self).state(), final(self).wf()),
    {
        self.eat(TokenKind::Load)?;
        let (ty, ptr) = self.parse_type_value()?;
        Ok(Instruction::Load { vreg, ptr, ty })
    }

    fn parse_ins_offset(&mut self, vreg: usize) -> (r: Result<Instruction, ParseError>)
        requires
            old(self).wf(),
        ensures
            final(self).source() == old(self).source(),
            ins_parsed(r, p_offset(old(self).source(), old(self).state(), vreg), old(self).state(), final(self).state(), final(self).wf()),
    {
        self.eat(TokenKind::Offset)?;
        let ptr = self.parse_value()?;
        self.eat(TokenKind::Comma)?;
        let ty = self.parse_type()?;
        self.eat(TokenKind::Comma)?;
        let idx = self.parse_uint(usize::MAX as u128)?;
        Ok(Instruction::Offset { vreg, ptr, idx: idx as usize, ty })
    }

    /// An instruction.
    fn parse_ins(&mut self) -> (r: Result<Instruction, ParseError>)
        requires
            old(self).wf(),
        ensures
            final(self).source() == old(self).source(),
            ins_parsed(r, p_ins(old(self).source(), old(self).state()), old(self).state(), final(self).state(), final(self).wf()),
            r matches Ok(i) ==> !(i@ is Phi),
    {
        reveal(p_ins);
        let ghost s = self.source();
        let tk = self.peek();
        match tk.kind {
            TokenKind::Ret => self.parse_ins_ret(),
            TokenKind::Jmp => self.parse_ins_jmp(),
            TokenKind::Br => self.parse_ins_br(),
            TokenKind::Call => self.parse_ins_call(0, true),
            TokenKind::Store => self.parse_ins_store(),
            TokenKind::Label => {
                let label = self.next();
                Ok(Instruction::Label(self.text_of(label)))
            },
            TokenKind::Vreg => {
                let ghost st0 = self.state();
                let curr_tk = self.next();
                proof {
                    self.lemma_bounds();
                }
                let vreg_name = self.text_of(curr_tk);
                let vreg = match self.lookup(&vreg_name) {
                    Some(v) => v,
                    None => {
                        let v = self.next_vreg();
                        let ghost prev = self.local@;
                        self.local.push((vreg_name, v));
                        proof {
                            assert(self.local@.map_values(|p: (Vec<u8>, usize)| view_local(p)) =~= prev.map_values(
                                |p: (Vec<u8>, usize)| view_local(p),
                            ).push((text(s, curr_tk), v)));
                        }
                        v
                    },
                };
                proof {
                    assert((vreg, self.state()) == declare(adv(s, st0), text(s, curr_tk)));
                }
                self.eat(TokenKind::Assing)?;
                let next = self.peek();
                match next.kind {
                    TokenKind::Copy => self.parse_ins_copy(vreg),
                    TokenKind::Call => self.parse_ins_call(vreg, false),
                    TokenKind::Alloc => self.parse_ins_alloc(vreg),
                    TokenKind::Load => self.parse_ins_load(vreg),
                    TokenKind::Offset => self.parse_ins_offset(vreg),
                    TokenKind::Add | TokenKind::Sub | TokenKind::Mul | TokenKind::Div | TokenKind::Udiv | TokenKind::Ceq
                    | TokenKind::Cne | TokenKind::Cslt | TokenKind::Cult | TokenKind::Csgt | TokenKind::Cugt => self.parse_ins_op(vreg),
                    _ => Err(ParseError::ExpectedInstruction { found: next.kind, start: next.span.0, end: next.span.1 }),
                }
            },
            _ => Err(ParseError::ExpectedInstruction { found: tk.kind, start: tk.span.0, end: tk.span.1 }),
        }
    }
}


impl IrParser {
    /// The parameters of an extern function: types, and maybe a final `...`.
    fn parse_ext_params(&mut self) -> (r: Result<Vec<Parameter>, ParseError>)
        requires
            old(self).wf(),
        ensures
            final(self).source() == old(self).source(),
            match run_loop(ext_param_step(old(self).source()), old(self).state()) {
                Ok((ps, st)) => r matches Ok(x) && x@ == ps && final(self).state() == st && final(self).wf()
                    && st.cur >= old(self).state().cur,
                Err(e) => r == Err::<Vec<Parameter>, ParseError>(e),
            },
    {
        let ghost s = self.source();
        let ghost st0 = self.state();
        let ghost mut k: nat = 0;
        let mut params: Vec<Parameter> = Vec::new();
        let mut done = false;
        while !done
            invariant
                self.wf(),
                self.source() == s,
                s == old(self).source(),
                st0 == old(self).state(),
                self.state().cur >= st0.cur,
                !done ==> iterate(ext_param_step(s), st0, k) == Some((params@, self.state())),
                done ==> loop_outcome(ext_param_step(s), st0, k, Ok((params@, self.state()))),
            decreases (if done {
                0
            } else {
                s.len() + 3 - self.state().cur
            }),
        {
            proof {
                self.lemma_bounds();
            }
            let ghost st1 = self.state();
            let tk = self.peek();
            if tk.kind == TokenKind::Rparen {
                done = true;
            } else if tk.kind == TokenKind::Dots {
                self.next();
                let v = self.next_vreg();
                params.push(Parameter { vreg: v, ty: Type::I1, is_vaarg: true });
                done = true;
            } else {
                let v = self.curr_vreg;
                match self.parse_type() {
                    Err(e) => {
                        proof {
                            lemma_loop_result(ext_param_step(s), st0, k, Err(e));
                        }
                        return Err(e);
                    },
                    Ok(ty) => {
                        self.curr_vreg = v + 1;
                        let p = Parameter { vreg: v, ty, is_vaarg: false };
                        let ghost st2 = self.state();
                        if self.peek().kind != TokenKind::Rparen {
                            match self.eat(TokenKind::Comma) {
                                Err(e) => {
                                    proof {
                                        lemma_loop_result(ext_param_step(s), st0, k, Err(e));
                                    }
                                    return Err(e);
                                },
                                Ok(_) => {},
                            }
                        }
                        proof {
                            lemma_iterate_next(ext_param_step(s), st0, k, params@, st1, p, self.state());
                            k = k + 1;
                        }
                        params.push(p);
                    },
                }
            }
        }
        proof {
            lemma_loop_result(ext_param_step(s), st0, k, Ok((params@, self.state())));
        }
        Ok(params)
    }

    /// A named parameter: `%NAME TYPE`.
    fn parse_named_param(&mut self) -> (r: Result<Parameter, ParseError>)
        requires
            old(self).wf(),
        ensures
            final(self).source() == old(self).source(),
            match p_named_param(old(self).source(), old(self).state()) {
                Ok((p, st)) => r == Ok::<Parameter, ParseError>(p) && final(self).state() == st && final(self).wf()
                    && st.cur > old(self).state().cur,
                Err(e) => r == Err::<Parameter, ParseError>(e),
            },
    {
        let ghost s = self.source();
        let param = self.eat(TokenKind::Vreg)?;
        let v = self.curr_vreg;
        proof {
            self.lemma_bounds();
        }
        let ty = self.parse_type()?;
        self.curr_vreg = v + 1;
        let name = self.text_of(param);
        let ghost prev = self.local@;
        self.local.push((name, v));
        proof {
            assert(self.local@.map_values(|p: (Vec<u8>, usize)| view_local(p)) =~= prev.map_values(
                |p: (Vec<u8>, usize)| view_local(p),
            ).push((text(s, param), v)));
        }
        Ok(Parameter { vreg: v, ty, is_vaarg: false })
    }

    /// The named parameters of a function, if the list does not end here.
    fn parse_named_params(&mut self) -> (r: Result<Vec<Parameter>, ParseError>)
        requires
            old(self).wf(),
        ensures
            final(self).source() == old(self).source(),
            match p_named_params(old(self).source(), old(self).state()) {
                Ok((ps, st)) => r matches Ok(x) && x@ == ps && final(self).state() == st && final(self).wf()
                    && st.cur >= old(self).state().cur,
                Err(e) => r == Err::<Vec<Parameter>, ParseError>(e),
            },
    {
        let ghost s = self.source();
        let mut params: Vec<Parameter> = Vec::new();
        if self.peek().kind == TokenKind::Rparen {
            return Ok(params);
        }
        let first = self.parse_named_param()?;
        params.push(first);
        let ghost st0 = self.state();
        let ghost mut k: nat = 0;
        proof {
            assert(params@.skip(1) =~= Seq::<Parameter>::empty());
        }
        let mut done = false;
        while !done
            invariant
                self.wf(),
                self.source() == s,
                s == old(self).source(),
                pk(s, old(self).state()).kind != TokenKind::Rparen,
                p_named_param(s, old(self).state()) == Ok::<(Parameter, PState), ParseError>((first, st0)),
                params@.len() >= 1,
                params@[0] == first,
                self.state().cur >= st0.cur,
                st0.cur > old(self).state().cur,
                !done ==> iterate(named_param_step(s), st0, k) == Some((params@.skip(1), self.state())),
                done ==> loop_outcome(named_param_step(s), st0, k, Ok((params@.skip(1), self.state()))),
            decreases (if done {
                0
            } else {
                s.len() + 3 - self.state().cur
            }),
        {
            proof {
                self.lemma_bounds();
            }
            let ghost st1 = self.state();
            let ghost xs = params@.skip(1);
            if self.peek().kind != TokenKind::Comma {
                done = true;
            } else {
                self.next();
                if self.peek().kind == TokenKind::Dots {
                    self.next();
                    let ghost prev = params@;
                    params.push(Parameter { vreg: 0, ty: Type::I1, is_vaarg: true });
                    proof {
                        assert(params@.skip(1) =~= xs.push(Parameter { vreg: 0, ty: Type::I1, is_vaarg: true }));
                    }
                    done = true;
                } else {
                    match self.parse_named_param() {
                        Err(e) => {
                            proof {
                                lemma_loop_result(named_param_step(s), st0, k, Err(e));
                            }
                            return Err(e);
                        },
                        Ok(p) => {
                            proof {
                                lemma_iterate_next(named_param_step(s), st0, k, xs, st1, p, self.state());
                                k = k + 1;
                            }
                            params.push(p);
                            proof {
                                assert(params@.skip(1) =~= xs.push(p));
                            }
                        },
                    }
                }
            }
        }
        proof {
            lemma_loop_result(named_param_step(s), st0, k, Ok((params@.skip(1), self.state())));
            assert(seq![first] + params@.skip(1) =~= params@);
        }
        Ok(params)
    }

    /// The body of a function: `{`, instructions, `}`.
    fn parse_body(&mut self) -> (r: Result<Vec<Instruction>, ParseError>)
        requires
            old(self).wf(),
        ensures
            final(self).source() == old(self).source(),
            match p_body(old(self).source(), old(self).state()) {
                Ok((b, st)) => r matches Ok(x) && crate::module::instruction::view_instrs(x@) == b && final(self).state()
                    == st && final(self).wf() && st.cur > old(self).state().cur,
                Err(e) => r == Err::<Vec<Instruction>, ParseError>(e),
            },
            r matches Ok(x) ==> crate::module::instruction::no_phi(crate::module::instruction::view_instrs(x@)),
    {
        reveal(p_body);
        let ghost s = self.source();
        self.eat(TokenKind::Lbrace)?;
        let ghost st0 = self.state();
        let ghost mut k: nat = 0;
        let mut body: Vec<Instruction> = Vec::new();
        proof {
            assert(crate::module::instruction::view_instrs(body@) =~= Seq::<InstrV>::empty());
        }
        let mut more = self.peek().kind != TokenKind::Rbrace;
        while more
            invariant
                self.wf(),
                self.source() == s,
                s == old(self).source(),
                p_eat(s, old(self).state(), TokenKind::Lbrace) matches Ok((_, st)) && st == st0,
                st0.cur > old(self).state().cur,
                self.state().cur >= st0.cur,
                iterate(body_step(s), st0, k) == Some((crate::module::instruction::view_instrs(body@), self.state())),
                more == (pk(s, self.state()).kind != TokenKind::Rbrace),
                crate::module::instruction::no_phi(crate::module::instruction::view_instrs(body@)),
            decreases s.len() + 2 - self.state().cur,
        {
            proof {
                self.lemma_bounds();
            }
            let ghost st1 = self.state();
            let ghost xs = crate::module::instruction::view_instrs(body@);
            match self.parse_ins() {
                Err(e) => {
                    proof {
                        reveal(p_body);
                        lemma_loop_result(body_step(s), st0, k, Err(e));
                    }
                    return Err(e);
                },
                Ok(ins) => {
                    proof {
                        lemma_iterate_next(body_step(s), st0, k, xs, st1, ins@, self.state());
                        k = k + 1;
                    }
                    body.push(ins);
                    proof {
                        assert(crate::module::instruction::view_instrs(body@) =~= xs.push(ins@));
                    }
                },
            }
            more = self.peek().kind != TokenKind::Rbrace;
            proof {
                self.lemma_bounds();
            }
        }
        proof {
            lemma_loop_result(body_step(s), st0, k, Ok((crate::module::instruction::view_instrs(body@), self.state())));
        }
        self.eat(TokenKind::Rbrace)?;
        Ok(body)
    }

    /// A function.
    fn parse_function(&mut self) -> (r: Result<Function, ParseError>)
        requires
            old(self).wf(),
        ensures
            final(self).source() == old(self).source(),
            match p_function(old(self).source(), old(self).state()) {
                Ok((f, st)) => r matches Ok(x) && is_parsed_function(x@, f) && final(self).state() == st
                    && final(self).wf() && st.cur > old(self).state().cur,
                Err(e) => r == Err::<Function, ParseError>(e),
            },
            r matches Ok(x) ==> crate::module::instruction::no_phi(x@.body),
    {
        reveal(p_function);
        let curr_vreg = self.curr_vreg;
        self.eat(TokenKind::Define)?;
        self.local = Vec::new();
        proof {
            assert(self.state().locals =~= Seq::<(Seq<u8>, usize)>::empty());
        }
        let is_extern = if self.peek().kind == TokenKind::Extern {
            self.next();
            true
        } else {
            false
        };
        let name_tk = self.eat(TokenKind::GlobSym)?;
        let name = self.text_of(name_tk);
        self.eat(TokenKind::Lparen)?;
        let mut params: Vec<Parameter> = if is_extern {
            self.parse_ext_params()?
        } else {
            Vec::new()
        };
        let mut named = self.parse_named_params()?;
        params.append(&mut named);
        self.eat(TokenKind::Rparen)?;
        let ty = self.parse_type()?;
        if is_extern {
            self.curr_vreg = curr_vreg;
            let f = Function { name, params, ty, body: Vec::new(), cfg: ControlFlowGraph::new(), is_extern };
            assert(f@.body =~= Seq::<InstrV>::empty());
            return Ok(f);
        }
        let body = self.parse_body()?;
        self.curr_vreg = curr_vreg;
        Ok(Function { name, params, ty, body, cfg: ControlFlowGraph::new(), is_extern })
    }

    /// One datum of the given type.
    fn parse_datum(&mut self, ty: Type) -> (r: Result<Vec<u8>, ParseError>)
        requires
            old(self).wf(),
        ensures
            final(self).source() == old(self).source(),
            match p_datum(old(self).source(), old(self).state(), ty) {
                Ok((b, st)) => r matches Ok(x) && x@ == b && final(self).state() == st && final(self).wf() && st.cur
                    > old(self).state().cur,
                Err(e) => r == Err::<Vec<u8>, ParseError>(e),
            },
    {
        match ty {
            Type::I32 => {
                let tk = self.eat(TokenKind::IntLit)?;
                match parse_int_in(&self.src, tk.span.0 as usize, tk.span.1 as usize, 0x8000_0000, 0x7fff_ffff) {
                    Some((neg, mag)) => Ok(le_bytes32_exec(neg, mag)),
                    None => Err(ParseError::InvalidNumber { start: tk.span.0, end: tk.span.1 }),
                }
            },
            Type::I1 => {
                let tk = self.eat(TokenKind::IntLit)?;
                match parse_int_in(&self.src, tk.span.0 as usize, tk.span.1 as usize, 128, 127) {
                    Some((neg, mag)) => {
                        let b: u8 = if !neg && mag > 0 {
                            1
                        } else {
                            0
                        };
                        let mut v: Vec<u8> = Vec::new();
                        v.push(b);
                        assert(v@ =~= seq![b]);
                        Ok(v)
                    },
                    None => Err(ParseError::InvalidNumber { start: tk.span.0, end: tk.span.1 }),
                }
            },
            Type::F32 => {
                let tk = self.eat(TokenKind::IntLit)?;
                let start = tk.span.0 as usize;
                let end = tk.span.1 as usize;
                let ghost t = self.src@.subrange(start as int, end as int);
                let neg = start < end && self.src[start] == 45;
                let digits_start = if neg {
                    start + 1
                } else {
                    start
                };
                proof {
                    if neg {
                        assert(t.skip(1) =~= self.src@.subrange(start + 1, end as int));
                    } else {
                        assert(t =~= self.src@.subrange(start as int, end as int));
                    }
                }
                let n: u128 = match parse_digits(&self.src, digits_start, end, u128::MAX) {
                    (Some(v), _) => v,
                    (None, true) => u128::MAX,
                    (None, false) => {
                        return Err(ParseError::InvalidNumber { start: tk.span.0, end: tk.span.1 });
                    },
                };
                let bits = f32_bits_exec(neg, n);
                Ok(le_bytes32_exec(false, bits as u128))
            },
            Type::Ascii => {
                let tk = self.eat(TokenKind::AsciiLit)?;
                Ok(self.text_of(tk))
            },
            _ => Err(ParseError::UnsupportedData { ty }),
        }
    }

    /// The data of a global: `{ TYPE DATUM, ... }`, as raw bytes.
    fn parse_global_value(&mut self) -> (r: Result<Vec<u8>, ParseError>)
        requires
            old(self).wf(),
        ensures
            final(self).source() == old(self).source(),
            match p_global_value(old(self).source(), old(self).state()) {
                Ok((b, st)) => r matches Ok(x) && x@ == b && final(self).state() == st && final(self).wf() && st.cur
                    > old(self).state().cur,
                Err(e) => r == Err::<Vec<u8>, ParseError>(e),
            },
    {
        let ghost s = self.source();
        let mut bytes: Vec<u8> = Vec::new();
        self.eat(TokenKind::Lbrace)?;
        let ghost st0 = self.state();
        let ghost mut k: nat = 0;
        let ghost mut chunks: Seq<Seq<u8>> = Seq::empty();
        let mut more = self.peek().kind != TokenKind::Rbrace;
        while more
            invariant
                self.wf(),
                self.source() == s,
                s == old(self).source(),
                p_eat(s, old(self).state(), TokenKind::Lbrace) matches Ok((_, st)) && st == st0,
                st0.cur > old(self).state().cur,
                self.state().cur >= st0.cur,
                iterate(data_step(s), st0, k) == Some((chunks, self.state())),
                bytes@ == concat_bytes(chunks),
                more == (pk(s, self.state()).kind != TokenKind::Rbrace),
            decreases s.len() + 2 - self.state().cur,
        {
            proof {
                self.lemma_bounds();
            }
            let ghost st1 = self.state();
            let ty = match self.parse_type() {
                Ok(ty) => ty,
                Err(e) => {
                    proof {
                        lemma_loop_result(data_step(s), st0, k, Err(e));
                    }
                    return Err(e);
                },
            };
            let mut b = match self.parse_datum(ty) {
                Ok(b) => b,
                Err(e) => {
                    proof {
                        lemma_loop_result(data_step(s), st0, k, Err(e));
                    }
                    return Err(e);
                },
            };
            if self.peek().kind != TokenKind::Rbrace {
                match self.eat(TokenKind::Comma) {
                    Err(e) => {
                        proof {
                            lemma_loop_result(data_step(s), st0, k, Err(e));
                        }
                        return Err(e);
                    },
                    Ok(_) => {},
                }
            }
            proof {
                lemma_iterate_next(data_step(s), st0, k, chunks, st1, b@, self.state());
                k = k + 1;
                assert(chunks.push(b@).drop_last() =~= chunks);
                chunks = chunks.push(b@);
            }
            bytes.append(&mut b);
            more = self.peek().kind != TokenKind::Rbrace;
            proof {
                self.lemma_bounds();
            }
        }
        proof {
            lemma_loop_result(data_step(s), st0, k, Ok((chunks, self.state())));
        }
        self.eat(TokenKind::Rbrace)?;
        Ok(bytes)
    }

    /// A global: `data [constant] @NAME = { ... }`.
    fn parse_global(&mut self) -> (r: Result<GlobData, ParseError>)
        requires
            old(self).wf(),
        ensures
            final(self).source() == old(self).source(),
            match p_global(old(self).source(), old(self).state()) {
                Ok((g, st)) => r matches Ok(x) && x@ == g && final(self).state() == st && final(self).wf() && st.cur
                    > old(self).state().cur,
                Err(e) => r == Err::<GlobData, ParseError>(e),
            },
    {
        reveal(p_global);
        self.eat(TokenKind::Data)?;
        let is_constant = if self.peek().kind == TokenKind::Constant {
            self.next();
            true
        } else {
            false
        };
        let name_tk = self.eat(TokenKind::GlobSym)?;
        let name = self.text_of(name_tk);
        self.eat(TokenKind::Assing)?;
        let val = self.parse_global_value()?;
        Ok(GlobData { name, val, is_constant })
    }

    /// The module named `name`: globals and functions up to the end of the source.
    pub fn parse_module(&mut self, name: &str) -> (r: Result<Module, ParseError>)
        requires
            old(self).wf(),
        ensures
            match p_module(old(self).source(), old(self).state()) {
                Ok((items, st)) => r matches Ok(m) && is_parsed_module(m@, name.spec_bytes(), items),
                Err(e) => r == Err::<Module, ParseError>(e),
            },
            r matches Ok(m) ==> forall|i: int|
                0 <= i < m@.functions.len() ==> crate::module::instruction::no_phi(#[trigger] m@.functions[i].body),
    {
        let ghost s = self.source();
        let ghost st0 = self.state();
        let ghost mut k: nat = 0;
        let ghost mut items: Seq<ItemV> = Seq::empty();
        let mut functions: Vec<Function> = Vec::new();
        let mut globals: Vec<GlobData> = Vec::new();
        proof {
            assert(globals@.map_values(|g: GlobData| view_glob(g)) =~= globals_of(items));
        }
        let mut done = false;
        while !done
            invariant
                self.wf(),
                self.source() == s,
                st0 == old(self).state(),
                s == old(self).source(),
                self.state().cur >= st0.cur,
                !done ==> iterate(module_step(s), st0, k) == Some((items, self.state())),
                done ==> loop_outcome(module_step(s), st0, k, Ok((items, self.state()))),
                globals@.map_values(|g: GlobData| view_glob(g)) == globals_of(items),
                functions@.len() == functions_of(items).len(),
                forall|i: int| 0 <= i < functions@.len() ==> is_parsed_function((#[trigger] functions@[i])@, functions_of(items)[i]),
                forall|i: int| 0 <= i < functions@.len() ==> crate::module::instruction::no_phi((#[trigger] functions@[i])@.body),
            decreases (if done {
                0
            } else {
                s.len() + 3 - self.state().cur
            }),
        {
            proof {
                self.lemma_bounds();
            }
            let ghost st1 = self.state();
            let tk = self.peek();
            if tk.kind == TokenKind::Eof {
                done = true;
            } else if tk.kind == TokenKind::Data {
                match self.parse_global() {
                    Err(e) => {
                        proof {
                            lemma_loop_result(module_step(s), st0, k, Err(e));
                        }
                        return Err(e);
                    },
                    Ok(g) => {
                        proof {
                            lemma_iterate_next(module_step(s), st0, k, items, st1, ItemV::Glob(g@), self.state());
                            k = k + 1;
                        }
                        let ghost prev = globals@;
                        globals.push(g);
                        proof {
                            let items2 = items.push(ItemV::Glob(g@));
                            assert(items2.drop_last() =~= items);
                            assert(globals@.map_values(|g: GlobData| view_glob(g)) =~= prev.map_values(
                                |g: GlobData| view_glob(g),
                            ).push(g@));
                            items = items2;
                        }
                    },
                }
            } else if tk.kind == TokenKind::Define {
                match self.parse_function() {
                    Err(e) => {
                        proof {
                            lemma_loop_result(module_step(s), st0, k, Err(e));
                        }
                        return Err(e);
                    },
                    Ok(f) => {
                        let ghost pf = choose|pf: ParsedFunction| p_function(s, st1) == Ok::<(ParsedFunction, PState), ParseError>((pf, self.state()));
                        proof {
                            assert(p_function(s, st1) is Ok);
                            let (pf0, st2) = p_function(s, st1).unwrap();
                            assert(pf0 == pf);
                            lemma_iterate_next(module_step(s), st0, k, items, st1, ItemV::Func(pf), self.state());
                            k = k + 1;
                        }
                        functions.push(f);
                        proof {
                            let items2 = items.push(ItemV::Func(pf));
                            assert(items2.drop_last() =~= items);
                            assert(globals_of(items2) == globals_of(items));
                            assert(functions_of(items2) == functions_of(items).push(pf));
                            items = items2;
                        }
                    },
                }
            } else {
                proof {
                    lemma_loop_result(
                        module_step(s),
                        st0,
                        k,
                        Err(ParseError::ExpectedItem { found: tk.kind, start: tk.span.0, end: tk.span.1 }),
                    );
                }
                return Err(ParseError::ExpectedItem { found: tk.kind, start: tk.span.0, end: tk.span.1 });
            }
        }
        proof {
            lemma_loop_result(module_step(s), st0, k, Ok((items, self.state())));
        }
        let m = Module { name: vstd::slice::slice_to_vec(name.as_bytes()), globals, functions };
        proof {
            assert forall|i: int| 0 <= i < functions_of(items).len() implies is_parsed_function(
                #[trigger] m@.functions[i],
                functions_of(items)[i],
            ) by {
                assert(m@.functions[i] == functions@[i]@);
            }
        }
        Ok(m)
    }
}


} // verus!
