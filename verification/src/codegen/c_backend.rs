//! The C backend: the text of a C translation unit for a [`Module`].
//!
//! Each global becomes a byte array; each function a C function whose local variables are
//! declared first and whose blocks follow one another, introduced by a comment. The text is
//! stated by the spec functions `c_*` below.

use vstd::prelude::*;

use crate::cfg::{BasicBlock, BlockV};
use crate::module::function::{Function, FunctionV, Parameter};
use crate::module::instruction::{
    div_toward_zero, op_value, GlobData, GlobDataV, InstrV, Instruction, OpKind, Type, Value, ValueV,
};
use crate::module::{Module, ModuleV};
use crate::text::{append_decimal, append_hex_byte, append_slice, decimal, hex_byte};

verus! {

/// `uint32_t`
pub const T_U32: [u8; 8] = [117, 105, 110, 116, 51, 50, 95, 116];

/// `uint8_t`
pub const T_U8: [u8; 7] = [117, 105, 110, 116, 56, 95, 116];

/// `int32_t`
pub const T_I32: [u8; 7] = [105, 110, 116, 51, 50, 95, 116];

/// `int8_t`
pub const T_I8: [u8; 6] = [105, 110, 116, 56, 95, 116];

/// `float`
pub const T_FLOAT: [u8; 5] = [102, 108, 111, 97, 116];

/// `void*`
pub const T_PTR: [u8; 5] = [118, 111, 105, 100, 42];

/// `char`
pub const T_CHAR: [u8; 4] = [99, 104, 97, 114];

/// `void`
pub const T_VOID: [u8; 4] = [118, 111, 105, 100];

/// `vreg_`
pub const VREG: [u8; 5] = [118, 114, 101, 103, 95];

/// `glob_`
pub const GLOB: [u8; 5] = [103, 108, 111, 98, 95];

/// `/* VOID */`
pub const VOID_VALUE: [u8; 10] = [47, 42, 32, 86, 79, 73, 68, 32, 42, 47];

/// `  `
pub const INDENT: [u8; 2] = [32, 32];

/// `  return `
pub const RETURN: [u8; 9] = [32, 32, 114, 101, 116, 117, 114, 110, 32];

/// `(`
pub const LPAREN: [u8; 1] = [40];

/// `)`
pub const RPAREN: [u8; 1] = [41];

/// `;\n`
pub const SEMI_NL: [u8; 2] = [59, 10];

/// `;`
pub const SEMI: [u8; 1] = [59];

/// `\n`
pub const NL: [u8; 1] = [10];

/// ` vreg_`
pub const SP_VREG: [u8; 6] = [32, 118, 114, 101, 103, 95];

/// `  vreg_`
pub const INDENT_VREG: [u8; 7] = [32, 32, 118, 114, 101, 103, 95];

/// ` = (`
pub const ASSIGN_CAST: [u8; 4] = [32, 61, 32, 40];

/// `)((`
pub const CAST_OPEN: [u8; 3] = [41, 40, 40];

/// ` `
pub const SPACE: [u8; 1] = [32];

/// ` (`
pub const SP_LPAREN: [u8; 2] = [32, 40];

/// `+`
pub const OP_ADD: [u8; 1] = [43];

/// `-`
pub const OP_SUB: [u8; 1] = [45];

/// `*`
pub const OP_MUL: [u8; 1] = [42];

/// `/`
pub const OP_DIV: [u8; 1] = [47];

/// `==`
pub const OP_EQ: [u8; 2] = [61, 61];

/// `!=`
pub const OP_NE: [u8; 2] = [33, 61];

/// `<`
pub const OP_LT: [u8; 1] = [60];

/// `>`
pub const OP_GT: [u8; 1] = [62];

/// `);\n`
pub const RPAREN_SEMI_NL: [u8; 3] = [41, 59, 10];

/// `, `
pub const COMMA_SP: [u8; 2] = [44, 32];

/// `L_`
pub const LABEL_PREFIX: [u8; 2] = [76, 95];

/// `:\n`
pub const COLON_NL: [u8; 2] = [58, 10];

/// `  goto L_`
pub const GOTO: [u8; 9] = [32, 32, 103, 111, 116, 111, 32, 76, 95];

/// `  if (`
pub const IF_OPEN: [u8; 6] = [32, 32, 105, 102, 32, 40];

/// `) goto L_`
pub const THEN_GOTO: [u8; 9] = [41, 32, 103, 111, 116, 111, 32, 76, 95];

/// `; else goto L_`
pub const ELSE_GOTO: [u8; 14] = [59, 32, 101, 108, 115, 101, 32, 103, 111, 116, 111, 32, 76, 95];

/// `  void* vreg_`
pub const VOIDPTR_VREG: [u8; 13] = [32, 32, 118, 111, 105, 100, 42, 32, 118, 114, 101, 103, 95];

/// `[`
pub const LBRACKET: [u8; 1] = [91];

/// `]){0};\n`
pub const ARRAY_INIT: [u8; 7] = [93, 41, 123, 48, 125, 59, 10];

/// `  *( (`
pub const STORE_OPEN: [u8; 6] = [32, 32, 42, 40, 32, 40];

/// ` *)`
pub const PTR_CAST: [u8; 3] = [32, 42, 41];

/// ` ) = `
pub const STORE_MID: [u8; 5] = [32, 41, 32, 61, 32];

/// ` = *( (`
pub const LOAD_OPEN: [u8; 7] = [32, 61, 32, 42, 40, 32, 40];

/// ` );\n`
pub const LOAD_CLOSE: [u8; 4] = [32, 41, 59, 10];

/// ` = &((`
pub const OFFSET_OPEN: [u8; 6] = [32, 61, 32, 38, 40, 40];

/// `)[`
pub const INDEX_OPEN: [u8; 2] = [41, 91];

/// `];\n`
pub const INDEX_CLOSE: [u8; 3] = [93, 59, 10];

/// `...`
pub const DOTS: [u8; 3] = [46, 46, 46];

/// `\nextern `
pub const EXTERN: [u8; 8] = [10, 101, 120, 116, 101, 114, 110, 32];

/// `) {\n`
pub const BODY_OPEN: [u8; 4] = [41, 32, 123, 10];

/// `// BB_`
pub const BLOCK_COMMENT: [u8; 6] = [47, 47, 32, 66, 66, 95];

/// `}\n`
pub const CLOSE_BRACE: [u8; 2] = [125, 10];

/// `static const uint8_t `
pub const STATIC_CONST: [u8; 21] = [115, 116, 97, 116, 105, 99, 32, 99, 111, 110, 115, 116, 32, 117, 105, 110, 116, 56, 95, 116, 32];

/// `static uint8_t `
pub const STATIC: [u8; 15] = [115, 116, 97, 116, 105, 99, 32, 117, 105, 110, 116, 56, 95, 116, 32];

/// `[] = { `
pub const ARRAY_OPEN: [u8; 7] = [91, 93, 32, 61, 32, 123, 32];

/// ` };\n`
pub const ARRAY_CLOSE: [u8; 4] = [32, 125, 59, 10];

/// `// Module \"`
pub const MODULE_OPEN: [u8; 11] = [47, 47, 32, 77, 111, 100, 117, 108, 101, 32, 34];

/// `\"\n#include <stdint.h>\n`
pub const MODULE_CLOSE: [u8; 22] = [34, 10, 35, 105, 110, 99, 108, 117, 100, 101, 32, 60, 115, 116, 100, 105, 110, 116, 46, 104, 62, 10];

/// `);`
pub const RPAREN_SEMI: [u8; 2] = [41, 59];

/// ` = (`
pub const EQ_CAST: [u8; 4] = [32, 61, 32, 40];


/// The C type of a type.
pub open spec fn c_type(ty: Type) -> Seq<u8> {
    match ty {
        Type::I32 => T_U32@,
        Type::I1 => T_U8@,
        Type::F32 => T_FLOAT@,
        Type::Ptr => T_PTR@,
        Type::Ascii => T_CHAR@,
        Type::Void => T_VOID@,
    }
}

/// The first position of `t` from `i` on that holds no `0` (or the end).
pub open spec fn skip_zeros(t: Seq<u8>, i: int) -> int
    decreases t.len() - i,
{
    if 0 <= i < t.len() && t[i] == 48 {
        skip_zeros(t, i + 1)
    } else {
        i
    }
}

/// The length of `t` without its trailing `0`s.
pub open spec fn trim_zeros_end(t: Seq<u8>, n: int) -> int
    decreases n,
{
    if 0 < n <= t.len() && t[n - 1] == 48 {
        trim_zeros_end(t, n - 1)
    } else {
        n
    }
}

/// The position of the first `.` of `t`, or its length.
pub open spec fn dot_pos(t: Seq<u8>, i: int) -> int
    decreases t.len() - i,
{
    if 0 <= i < t.len() && t[i] != 46 {
        dot_pos(t, i + 1)
    } else {
        i
    }
}

/// A floating point literal `[-]DIGITS.DIGITS` in its shortest decimal form: the sign,
/// the integer digits without leading zeros (`0` when none is left), and the fraction
/// digits without trailing zeros after a `.` (nothing when none is left).
pub open spec fn float_text(t: Seq<u8>) -> Seq<u8> {
    let s: int = if t.len() > 0 && t[0] == 45 {
        1
    } else {
        0
    };
    let d = dot_pos(t, s);
    let a = skip_zeros(t, s);
    let int_part = if a < d {
        t.subrange(a, d)
    } else {
        seq![48u8]
    };
    let e = trim_zeros_end(t, t.len() as int);
    let frac = if d + 1 < e {
        seq![46u8] + t.subrange(d + 1, e)
    } else {
        Seq::empty()
    };
    t.take(s) + int_part + frac
}

/// The C text of a value. A floating point literal is written in its shortest decimal form.
pub open spec fn c_value(v: ValueV) -> Seq<u8> {
    match v {
        ValueV::IntLit(i) => decimal(i as nat),
        ValueV::FloatLit(t) => float_text(t),
        ValueV::Vreg(r) => VREG@ + decimal(r as nat),
        ValueV::GlobSym(s) => GLOB@ + s,
        ValueV::Void => VOID_VALUE@,
    }
}

/// `(T)`
pub open spec fn c_cast(ty: Type) -> Seq<u8> {
    LPAREN@ + c_type(ty) + RPAREN@
}

/// The declaration of register `n` of type `ty`: `  T vreg_N;`
pub open spec fn c_decl(ty: Type, n: usize) -> Seq<u8> {
    INDENT@ + c_type(ty) + SP_VREG@ + decimal(n as nat) + SEMI@
}

/// The C operator of an operation.
pub open spec fn c_op(k: OpKind) -> Seq<u8> {
    match k {
        OpKind::Add => OP_ADD@,
        OpKind::Sub => OP_SUB@,
        OpKind::Mul => OP_MUL@,
        OpKind::Div | OpKind::Udiv => OP_DIV@,
        OpKind::CmpEq => OP_EQ@,
        OpKind::CmpNe => OP_NE@,
        OpKind::CmpSlt | OpKind::CmpUlt => OP_LT@,
        OpKind::CmpSgt | OpKind::CmpUgt => OP_GT@,
    }
}

/// What the C binary operator spelled `op` computes from the operands `a` and `b`: `+`, `-`,
/// `*` and `/` (rounding toward zero) their arithmetic result, `==`, `!=`, `<` and `>` 1 when
/// the comparison holds and 0 when it does not; none for any other text.
pub open spec fn c_operator_value(op: Seq<u8>, a: int, b: int) -> Option<int> {
    if op == seq![43u8] {
        Some(a + b)
    } else if op == seq![45u8] {
        Some(a - b)
    } else if op == seq![42u8] {
        Some(a * b)
    } else if op == seq![47u8] {
        Some(div_toward_zero(a, b))
    } else if op == seq![61u8, 61u8] {
        Some(if a == b { 1 } else { 0 })
    } else if op == seq![33u8, 61u8] {
        Some(if a != b { 1 } else { 0 })
    } else if op == seq![60u8] {
        Some(if a < b { 1 } else { 0 })
    } else if op == seq![62u8] {
        Some(if a > b { 1 } else { 0 })
    } else {
        None
    }
}

/// The C operator emitted for an operation computes what the operation computes: `-` for
/// `sub` subtracts, `*` for `mul` multiplies, `!=` for `cne` holds when the operands differ,
/// and so on.
pub proof fn lemma_c_op_computes(k: OpKind, a: int, b: int)
    ensures
        c_operator_value(c_op(k), a, b) == Some(op_value(k, a, b)),
{
    assert(OP_ADD@ =~= seq![43u8]);
    assert(OP_SUB@ =~= seq![45u8]);
    assert(OP_MUL@ =~= seq![42u8]);
    assert(OP_DIV@ =~= seq![47u8]);
    assert(OP_EQ@ =~= seq![61u8, 61u8]);
    assert(OP_NE@ =~= seq![33u8, 61u8]);
    assert(OP_LT@ =~= seq![60u8]);
    assert(OP_GT@ =~= seq![62u8]);
}

/// Whether an operation reads its operands as signed numbers: `div`, `slt` and `sgt`.
pub open spec fn is_signed_op(k: OpKind) -> bool {
    k == OpKind::Div || k == OpKind::CmpSlt || k == OpKind::CmpSgt
}

/// The C type in which an operation reads its operands of type `ty`: the signed integer
/// type of the same width for signed operations, the type itself otherwise.
pub open spec fn c_operand_type(k: OpKind, ty: Type) -> Seq<u8> {
    if is_signed_op(k) {
        match ty {
            Type::I32 => T_I32@,
            Type::I1 => T_I8@,
            _ => c_type(ty),
        }
    } else {
        c_type(ty)
    }
}

/// The type of the result of an operation on values of type `ty`: `i1` for comparisons.
pub open spec fn op_result_type(k: OpKind, ty: Type) -> Type {
    match k {
        OpKind::Add | OpKind::Sub | OpKind::Mul | OpKind::Div | OpKind::Udiv => ty,
        _ => Type::I1,
    }
}

/// An argument of a call: `(T)V`
pub open spec fn c_arg(a: (Type, ValueV)) -> Seq<u8> {
    c_cast(a.0) + c_value(a.1)
}

/// The arguments of a call, separated by `, `.
pub open spec fn c_args(args: Seq<(Type, ValueV)>) -> Seq<u8>
    decreases args.len(),
{
    if args.len() == 0 {
        Seq::empty()
    } else if args.len() == 1 {
        c_arg(args[0])
    } else {
        c_args(args.drop_last()) + COMMA_SP@ + c_arg(args.last())
    }
}

/// Whether `l` is a whole line of `h`.
pub open spec fn is_line_at(h: Seq<u8>, i: int, l: Seq<u8>) -> bool {
    &&& 0 <= i
    &&& i + l.len() <= h.len()
    &&& i == 0 || h[i - 1] == 10
    &&& h.subrange(i, i + l.len()) == l
    &&& i + l.len() == h.len() || h[i + l.len()] == 10
}

/// Some line of `h` is `l`.
pub open spec fn has_line(h: Seq<u8>, l: Seq<u8>) -> bool {
    exists|i: int| is_line_at(h, i, l)
}

/// What an instruction adds to the declarations of its function, which are `h` so far: the
/// declaration of the register it writes (a copy declares its register only once).
pub open spec fn inst_header(i: InstrV, h: Seq<u8>) -> Seq<u8> {
    match i {
        InstrV::Copy { vreg, ty, .. } => if has_line(h, c_decl(ty, vreg)) {
            Seq::empty()
        } else {
            c_decl(ty, vreg) + NL@
        },
        InstrV::Op { vreg, kind, ty, .. } => c_decl(op_result_type(kind, ty), vreg) + NL@,
        InstrV::Call { vreg, ty, discard_value, .. } => if discard_value {
            Seq::empty()
        } else {
            c_decl(ty, vreg) + NL@
        },
        InstrV::Alloc { vreg, .. } => VOIDPTR_VREG@ + decimal(vreg as nat) + SEMI_NL@,
        InstrV::Load { vreg, ty, .. } => c_decl(ty, vreg) + NL@,
        InstrV::Offset { vreg, .. } => VOIDPTR_VREG@ + decimal(vreg as nat) + SEMI_NL@,
        _ => Seq::empty(),
    }
}


/// The declarations of an instruction, added to declarations that are empty or end with a
/// line break, again end with a line break or are empty.
pub proof fn lemma_header_ends_line(i: InstrV, h: Seq<u8>)
    requires
        h.len() == 0 || h.last() == 10,
    ensures
        (h + inst_header(i, h)).len() == 0 || (h + inst_header(i, h)).last() == 10,
{
    let a = h + inst_header(i, h);
    if inst_header(i, h).len() > 0 {
        assert(NL@ == seq![10u8]);
        assert(SEMI_NL@ == seq![59u8, 10u8]);
        assert(a.last() == inst_header(i, h).last());
    } else {
        assert(a =~= h);
    }
}

/// A copy to a register declares it once: after the declarations of a copy are added to
/// declarations that are empty or end with a line break, the same copy declares nothing
/// more.
pub proof fn lemma_copy_declared_once(i: InstrV, h: Seq<u8>)
    requires
        i is Copy,
        h.len() == 0 || h.last() == 10,
    ensures
        inst_header(i, h + inst_header(i, h)) == Seq::<u8>::empty(),
{
    let d = c_decl(i->Copy_ty, i->Copy_vreg);
    if has_line(h, d) {
        assert(h + inst_header(i, h) =~= h);
    } else {
        assert(NL@ == seq![10u8]);
        let h2 = h + (d + NL@);
        assert(h2.subrange(h.len() as int, (h.len() + d.len()) as int) =~= d);
        assert(h2[(h.len() + d.len()) as int] == 10);
        if h.len() > 0 {
            assert(h2[h.len() - 1] == h.last());
        }
        assert(is_line_at(h2, h.len() as int, d));
    }
}
/// The statements of an instruction.
pub open spec fn inst_body(i: InstrV) -> Seq<u8> {
    match i {
        InstrV::Ret { val, ty } => RETURN@ + (if ty == Type::Void {
            Seq::empty()
        } else {
            c_cast(ty)
        }) + c_value(val) + SEMI_NL@,
        InstrV::Copy { vreg, val, ty } => INDENT_VREG@ + decimal(vreg as nat) + EQ_CAST@ + c_type(ty) + RPAREN@
            + c_value(val) + SEMI_NL@,
        InstrV::Op { vreg, kind, lhs, rhs, ty } => INDENT_VREG@ + decimal(vreg as nat) + EQ_CAST@ + c_type(
            op_result_type(kind, ty),
        ) + CAST_OPEN@ + c_operand_type(kind, ty) + RPAREN@ + c_value(lhs) + SPACE@ + c_op(kind) + SP_LPAREN@
            + c_operand_type(kind, ty) + RPAREN@ + c_value(rhs) + RPAREN_SEMI_NL@,
        InstrV::Call { vreg, func, args, ty, discard_value } => if discard_value {
            INDENT@ + func + LPAREN@ + c_args(args) + RPAREN_SEMI_NL@
        } else {
            INDENT_VREG@ + decimal(vreg as nat) + EQ_CAST@ + c_type(ty) + RPAREN@ + func + LPAREN@ + c_args(args)
                + RPAREN_SEMI_NL@
        },
        InstrV::Label(l) => LABEL_PREFIX@ + l + COLON_NL@,
        InstrV::Jmp(d) => GOTO@ + d + SEMI_NL@,
        InstrV::Br { cond, true_br, false_br } => IF_OPEN@ + c_value(cond) + THEN_GOTO@ + true_br + ELSE_GOTO@
            + false_br + SEMI_NL@,
        InstrV::Alloc { vreg, num, ty } => INDENT_VREG@ + decimal(vreg as nat) + EQ_CAST@ + c_type(ty) + LBRACKET@
            + decimal(num as nat) + ARRAY_INIT@,
        InstrV::Store { ptr, val, ty } => STORE_OPEN@ + c_type(ty) + PTR_CAST@ + c_value(ptr) + STORE_MID@ + c_value(
            val,
        ) + SEMI_NL@,
        InstrV::Load { vreg, ptr, ty } => INDENT_VREG@ + decimal(vreg as nat) + LOAD_OPEN@ + c_type(ty) + PTR_CAST@
            + c_value(ptr) + LOAD_CLOSE@,
        InstrV::Offset { vreg, ptr, idx, ty } => INDENT_VREG@ + decimal(vreg as nat) + OFFSET_OPEN@ + c_type(ty)
            + PTR_CAST@ + c_value(ptr) + INDEX_OPEN@ + decimal(idx as nat) + INDEX_CLOSE@,
        InstrV::Phi { .. } => Seq::empty(),
    }
}

/// The declarations and statements after the instructions `is`, from `h` and `b`.
pub open spec fn emit_insts(is: Seq<InstrV>, h: Seq<u8>, b: Seq<u8>) -> (Seq<u8>, Seq<u8>)
    decreases is.len(),
{
    if is.len() == 0 {
        (h, b)
    } else {
        let (h1, b1) = emit_insts(is.drop_last(), h, b);
        (h1 + inst_header(is.last(), h1), b1 + inst_body(is.last()))
    }
}

/// The declarations and statements after the blocks `bs`, each introduced by a comment.
pub open spec fn emit_blocks(bs: Seq<BlockV>, h: Seq<u8>, b: Seq<u8>) -> (Seq<u8>, Seq<u8>)
    decreases bs.len(),
{
    if bs.len() == 0 {
        (h, b)
    } else {
        let (h1, b1) = emit_blocks(bs.drop_last(), h, b);
        emit_insts(bs.last().instructions, h1, b1 + BLOCK_COMMENT@ + decimal(bs.last().id.0 as nat) + COLON_NL@)
    }
}

/// A parameter: `T vreg_N`, or `...`
pub open spec fn c_param(p: Parameter) -> Seq<u8> {
    if p.is_vaarg {
        DOTS@
    } else {
        c_type(p.ty) + SP_VREG@ + decimal(p.vreg as nat)
    }
}

/// The parameters of a function, separated by `, `.
pub open spec fn c_params(ps: Seq<Parameter>) -> Seq<u8>
    decreases ps.len(),
{
    if ps.len() == 0 {
        Seq::empty()
    } else if ps.len() == 1 {
        c_param(ps[0])
    } else {
        c_params(ps.drop_last()) + COMMA_SP@ + c_param(ps.last())
    }
}

/// A function: an `extern` declaration, or a definition with the declarations of its
/// registers first and then its blocks.
pub open spec fn c_function(f: FunctionV) -> Seq<u8> {
    if f.is_extern {
        EXTERN@ + c_type(f.ty) + SPACE@ + f.name + LPAREN@ + c_params(f.params) + RPAREN_SEMI@ + NL@
    } else {
        let (h, b) = emit_blocks(f.cfg.blocks, Seq::empty(), Seq::empty());
        NL@ + c_type(f.ty) + SPACE@ + f.name + LPAREN@ + c_params(f.params) + BODY_OPEN@ + h + b + CLOSE_BRACE@
    }
}

/// Bytes written as `0x..`, separated by `, `.
pub open spec fn c_bytes(v: Seq<u8>) -> Seq<u8>
    decreases v.len(),
{
    if v.len() == 0 {
        Seq::empty()
    } else if v.len() == 1 {
        hex_byte(v[0])
    } else {
        c_bytes(v.drop_last()) + COMMA_SP@ + hex_byte(v.last())
    }
}

/// A global: a static byte array, `const` when the global is constant.
pub open spec fn c_global(g: GlobDataV) -> Seq<u8> {
    (if g.is_constant {
        STATIC_CONST@
    } else {
        STATIC@
    }) + GLOB@ + g.name + ARRAY_OPEN@ + c_bytes(g.val) + ARRAY_CLOSE@
}

pub open spec fn c_globals(gs: Seq<GlobDataV>) -> Seq<u8>
    decreases gs.len(),
{
    if gs.len() == 0 {
        Seq::empty()
    } else {
        c_globals(gs.drop_last()) + c_global(gs.last())
    }
}

pub open spec fn c_functions(fs: Seq<FunctionV>) -> Seq<u8>
    decreases fs.len(),
{
    if fs.len() == 0 {
        Seq::empty()
    } else {
        c_functions(fs.drop_last()) + c_function(fs.last())
    }
}

/// The C translation unit of a module: a comment with its name, the include of
/// `stdint.h`, its globals and its functions.
pub open spec fn c_module(m: ModuleV) -> Seq<u8> {
    MODULE_OPEN@ + m.name + MODULE_CLOSE@ + c_globals(m.globals) + c_functions(m.functions)
}

/// Appends a floating point literal in its shortest decimal form.
fn append_float(out: &mut Vec<u8>, t: &Vec<u8>)
    ensures
        final(out)@ == old(out)@ + float_text(t@),
{
    let ghost tv = t@;
    let s: usize = if t.len() > 0 && t[0] == 45 {
        1
    } else {
        0
    };
    let mut d: usize = s;
    while d < t.len() && t[d] != 46
        invariant
            s <= d <= t@.len(),
            dot_pos(tv, d as int) == dot_pos(tv, s as int),
            tv == t@,
        decreases t@.len() - d,
    {
        d = d + 1;
    }
    let mut a: usize = s;
    while a < t.len() && t[a] == 48
        invariant
            s <= a <= t@.len(),
            skip_zeros(tv, a as int) == skip_zeros(tv, s as int),
            tv == t@,
        decreases t@.len() - a,
    {
        a = a + 1;
    }
    let mut e: usize = t.len();
    while e > 0 && t[e - 1] == 48
        invariant
            e <= t@.len(),
            trim_zeros_end(tv, e as int) == trim_zeros_end(tv, t@.len() as int),
            tv == t@,
        decreases e,
    {
        e = e - 1;
    }
    let ghost before = out@;
    let mut i: usize = 0;
    while i < s
        invariant
            s <= 1,
            s <= t@.len(),
            i <= s,
            out@ == before + tv.subrange(0, i as int),
            tv == t@,
        decreases s - i,
    {
        out.push(t[i]);
        assert(out@ =~= before + tv.subrange(0, i + 1));
        i = i + 1;
    }
    let ghost after_sign = out@;
    if a < d {
        let mut i: usize = a;
        while i < d
            invariant
                a <= i <= d <= t@.len(),
                out@ == after_sign + tv.subrange(a as int, i as int),
                tv == t@,
            decreases d - i,
        {
            out.push(t[i]);
            assert(out@ =~= after_sign + tv.subrange(a as int, i + 1));
            i = i + 1;
        }
    } else {
        out.push(48);
    }
    let ghost after_int = out@;
    if d < e && e - d > 1 {
        out.push(46);
        let mut i: usize = d + 1;
        while i < e
            invariant
                d + 1 <= i <= e <= t@.len(),
                out@ == after_int + seq![46u8] + tv.subrange(d + 1, i as int),
                tv == t@,
            decreases e - i,
        {
            out.push(t[i]);
            assert(out@ =~= after_int + seq![46u8] + tv.subrange(d + 1, i + 1));
            i = i + 1;
        }
    }
    assert(tv.take(s as int) =~= tv.subrange(0, s as int));
    assert(out@ =~= old(out)@ + float_text(tv));
}


/// Whether `l` is a whole line of `h`.
fn header_has_line(h: &Vec<u8>, l: &Vec<u8>) -> (r: bool)
    ensures
        r == has_line(h@, l@),
{
    if l.len() > h.len() {
        assert forall|i: int| !is_line_at(h@, i, l@) by {}
        return false;
    }
    let hl = h.len();
    let last = hl - l.len();
    let mut i: usize = 0;
    let mut done = false;
    while !done
        invariant
            l@.len() <= h@.len(),
            hl == h@.len(),
            last == h@.len() - l@.len(),
            i <= last,
            forall|j: int| 0 <= j < i ==> !is_line_at(h@, j, l@),
            done ==> forall|j: int| 0 <= j <= last ==> !is_line_at(h@, j, l@),
        decreases (if done {
            0
        } else {
            last - i + 1
        }),
    {
        let starts = i == 0 || h[i - 1] == 10;
        let ends = i == last || h[i + l.len()] == 10;
        if starts && ends {
            let mut k: usize = 0;
            let mut same = true;
            while k < l.len()
                invariant
                    i <= last,
                    hl == h@.len(),
                    last == h@.len() - l@.len(),
                    k <= l@.len(),
                    same == (forall|j: int| 0 <= j < k ==> h@[i + j] == l@[j]),
                decreases l@.len() - k,
            {
                assert(i + k < h@.len());
                if h[i + k] != l[k] {
                    same = false;
                }
                k = k + 1;
            }
            if same {
                assert(h@.subrange(i as int, i + l@.len()) =~= l@);
                assert(is_line_at(h@, i as int, l@));
                return true;
            }
            assert(!is_line_at(h@, i as int, l@)) by {
                if h@.subrange(i as int, i + l@.len()) == l@ {
                    assert forall|j: int| 0 <= j < l@.len() implies h@[i + j] == l@[j] by {
                        assert(h@.subrange(i as int, i + l@.len())[j] == h@[i + j]);
                    }
                }
            }
        }
        if i == last {
            done = true;
        } else {
            i = i + 1;
        }
    }
    assert forall|j: int| !is_line_at(h@, j, l@) by {}
    false
}

/// The C backend for one module.
pub struct CBackend<'a> {
    pub module: &'a Module,
}

impl<'a> CBackend<'a> {
    /// A backend for `module`.
    pub fn new(module: &'a Module) -> (r: Self)
        ensures
            r.module == module,
    {
        CBackend { module }
    }

    fn compile_type(&self, ty: &Type, out: &mut Vec<u8>)
        ensures
            final(out)@ == old(out)@ + c_type(*ty),
    {
        match ty {
            Type::I32 => append_slice(out, &T_U32),
            Type::I1 => append_slice(out, &T_U8),
            Type::F32 => append_slice(out, &T_FLOAT),
            Type::Ptr => append_slice(out, &T_PTR),
            Type::Ascii => append_slice(out, &T_CHAR),
            Type::Void => append_slice(out, &T_VOID),
        }
    }

    fn compile_value(&self, val: &Value, out: &mut Vec<u8>)
        ensures
            final(out)@ == old(out)@ + c_value(val@),
    {
        match val {
            Value::IntLit(i) => append_decimal(out, *i),
            Value::FloatLit(f) => append_float(out, f),
            Value::Vreg(v) => {
                append_slice(out, &VREG);
                append_decimal(out, *v);
                assert(out@ =~= old(out)@ + c_value(val@));
            },
            Value::GlobSym(s) => {
                append_slice(out, &GLOB);
                crate::text::append_bytes(out, s);
                assert(out@ =~= old(out)@ + c_value(val@));
            },
            Value::Void => append_slice(out, &VOID_VALUE),
        }
    }

    /// `  T vreg_N;`
    fn compile_decl(&self, ty: &Type, vreg: usize, out: &mut Vec<u8>)
        ensures
            final(out)@ == old(out)@ + c_decl(*ty, vreg),
    {
        append_slice(out, &INDENT);
        self.compile_type(ty, out);
        append_slice(out, &SP_VREG);
        append_decimal(out, vreg);
        append_slice(out, &SEMI);
        assert(out@ =~= old(out)@ + c_decl(*ty, vreg));
    }

    /// The arguments of a call.
    fn compile_args(&self, args: &Vec<(Type, Value)>, out: &mut Vec<u8>)
        ensures
            final(out)@ == old(out)@ + c_args(args@.map_values(|a: (Type, Value)| crate::module::instruction::view_arg(a))),
    {
        let ghost av = args@.map_values(|a: (Type, Value)| crate::module::instruction::view_arg(a));
        let mut i: usize = 0;
        assert(av.take(0) =~= Seq::<(Type, ValueV)>::empty());
        while i < args.len()
            invariant
                i <= args@.len(),
                av == args@.map_values(|a: (Type, Value)| crate::module::instruction::view_arg(a)),
                out@ == old(out)@ + c_args(av.take(i as int)),
            decreases args@.len() - i,
        {
            let ghost before = out@;
            if i > 0 {
                append_slice(out, &COMMA_SP);
            }
            append_slice(out, &LPAREN);
            self.compile_type(&args[i].0, out);
            append_slice(out, &RPAREN);
            self.compile_value(&args[i].1, out);
            proof {
                assert(av[i as int] == crate::module::instruction::view_arg(args@[i as int]));
                assert(av.take(i + 1).drop_last() =~= av.take(i as int));
                if i == 0 {
                    assert(av.take(1) =~= seq![av[0]]);
                    assert(c_args(av.take(1)) == c_arg(av[0]));
                    assert(out@ =~= old(out)@ + c_args(av.take(i + 1)));
                } else {
                    assert(out@ =~= old(out)@ + c_args(av.take(i + 1)));
                }
            }
            i = i + 1;
        }
        assert(av.take(args@.len() as int) =~= av);
    }

    fn compile_ret(&self, inst: &Instruction, header: &mut Vec<u8>, body: &mut Vec<u8>)
        requires
            inst is Ret,
        ensures
            final(header)@ == old(header)@ + inst_header(inst@, old(header)@),
            final(body)@ == old(body)@ + inst_body(inst@),
    {
        match inst {
            Instruction::Ret { val, ty } => {
                append_slice(body, &RETURN);
                if *ty != Type::Void {
                    append_slice(body, &LPAREN);
                    self.compile_type(ty, body);
                    append_slice(body, &RPAREN);
                }
                self.compile_value(val, body);
                append_slice(body, &SEMI_NL);
                assert(body@ =~= old(body)@ + inst_body(inst@));
                assert(header@ =~= old(header)@ + inst_header(inst@, old(header)@));
            },
            _ => {},
        }
    }

    fn compile_copy(&self, inst: &Instruction, header: &mut Vec<u8>, body: &mut Vec<u8>)
        requires
            inst is Copy,
        ensures
            final(header)@ == old(header)@ + inst_header(inst@, old(header)@),
            final(body)@ == old(body)@ + inst_body(inst@),
    {
        match inst {
            Instruction::Copy { vreg, val, ty } => {
                let mut def: Vec<u8> = Vec::new();
                self.compile_decl(ty, *vreg, &mut def);
                assert(def@ =~= c_decl(*ty, *vreg));
                if !header_has_line(header, &def) {
                    crate::text::append_bytes(header, &def);
                    append_slice(header, &NL);
                }
                append_slice(body, &INDENT_VREG);
                append_decimal(body, *vreg);
                append_slice(body, &EQ_CAST);
                self.compile_type(ty, body);
                append_slice(body, &RPAREN);
                self.compile_value(val, body);
                append_slice(body, &SEMI_NL);
                assert(body@ =~= old(body)@ + inst_body(inst@));
                assert(header@ =~= old(header)@ + inst_header(inst@, old(header)@));
            },
            _ => {},
        }
    }

    /// The C operator of an operation.
    fn compile_op_symbol(&self, kind: &OpKind, out: &mut Vec<u8>)
        ensures
            final(out)@ == old(out)@ + c_op(*kind),
    {
        match kind {
            OpKind::Add => append_slice(out, &OP_ADD),
            OpKind::Sub => append_slice(out, &OP_SUB),
            OpKind::Mul => append_slice(out, &OP_MUL),
            OpKind::Div | OpKind::Udiv => append_slice(out, &OP_DIV),
            OpKind::CmpEq => append_slice(out, &OP_EQ),
            OpKind::CmpNe => append_slice(out, &OP_NE),
            OpKind::CmpSlt | OpKind::CmpUlt => append_slice(out, &OP_LT),
            OpKind::CmpSgt | OpKind::CmpUgt => append_slice(out, &OP_GT),
        }
    }

    /// The C type in which an operation reads its operands.
    fn compile_operand_type(&self, kind: &OpKind, ty: &Type, out: &mut Vec<u8>)
        ensures
            final(out)@ == old(out)@ + c_operand_type(*kind, *ty),
    {
        let signed = match kind {
            OpKind::Div | OpKind::CmpSlt | OpKind::CmpSgt => true,
            _ => false,
        };
        if signed {
            match ty {
                Type::I32 => append_slice(out, &T_I32),
                Type::I1 => append_slice(out, &T_I8),
                _ => self.compile_type(ty, out),
            }
        } else {
            self.compile_type(ty, out);
        }
    }

    /// The type of the result of an operation.
    fn op_result(&self, kind: &OpKind, ty: &Type) -> (r: Type)
        ensures
            r == op_result_type(*kind, *ty),
    {
        match kind {
            OpKind::Add | OpKind::Sub | OpKind::Mul | OpKind::Div | OpKind::Udiv => *ty,
            _ => Type::I1,
        }
    }

    fn compile_op(&self, inst: &Instruction, header: &mut Vec<u8>, body: &mut Vec<u8>)
        requires
            inst is Op,
        ensures
            final(header)@ == old(header)@ + inst_header(inst@, old(header)@),
            final(body)@ == old(body)@ + inst_body(inst@),
    {
        match inst {
            Instruction::Op { vreg, kind, lhs, rhs, ty } => {
                let res_ty = self.op_result(kind, ty);
                self.compile_decl(&res_ty, *vreg, header);
                append_slice(header, &NL);
                assert(header@ =~= old(header)@ + inst_header(inst@, old(header)@));
                let mut s: Vec<u8> = Vec::new();
                append_slice(&mut s, &INDENT_VREG);
                assert(s@ =~= INDENT_VREG@);
                append_decimal(&mut s, *vreg);
                append_slice(&mut s, &EQ_CAST);
                self.compile_type(&res_ty, &mut s);
                append_slice(&mut s, &CAST_OPEN);
                self.compile_operand_type(kind, ty, &mut s);
                append_slice(&mut s, &RPAREN);
                self.compile_value(lhs, &mut s);
                append_slice(&mut s, &SPACE);
                self.compile_op_symbol(kind, &mut s);
                append_slice(&mut s, &SP_LPAREN);
                self.compile_operand_type(kind, ty, &mut s);
                append_slice(&mut s, &RPAREN);
                self.compile_value(rhs, &mut s);
                append_slice(&mut s, &RPAREN_SEMI_NL);
                assert(s@ == inst_body(inst@));
                body.append(&mut s);
            },
            _ => {},
        }
    }

    fn compile_call(&self, inst: &Instruction, header: &mut Vec<u8>, body: &mut Vec<u8>)
        requires
            inst is Call,
        ensures
            final(header)@ == old(header)@ + inst_header(inst@, old(header)@),
            final(body)@ == old(body)@ + inst_body(inst@),
    {
        match inst {
            Instruction::Call { vreg, func, args, ty, discard_value } => {
                if *discard_value {
                    append_slice(body, &INDENT);
                    crate::text::append_bytes(body, func);
                    append_slice(body, &LPAREN);
                    self.compile_args(args, body);
                    append_slice(body, &RPAREN_SEMI_NL);
                } else {
                    self.compile_decl(ty, *vreg, header);
                    append_slice(header, &NL);
                    append_slice(body, &INDENT_VREG);
                    append_decimal(body, *vreg);
                    append_slice(body, &EQ_CAST);
                    self.compile_type(ty, body);
                    append_slice(body, &RPAREN);
                    crate::text::append_bytes(body, func);
                    append_slice(body, &LPAREN);
                    self.compile_args(args, body);
                    append_slice(body, &RPAREN_SEMI_NL);
                }
                assert(body@ =~= old(body)@ + inst_body(inst@));
                assert(header@ =~= old(header)@ + inst_header(inst@, old(header)@));
            },
            _ => {},
        }
    }

    fn compile_label(&self, inst: &Instruction, header: &mut Vec<u8>, body: &mut Vec<u8>)
        requires
            inst is Label,
        ensures
            final(header)@ == old(header)@ + inst_header(inst@, old(header)@),
            final(body)@ == old(body)@ + inst_body(inst@),
    {
        match inst {
            Instruction::Label(label) => {
                append_slice(body, &LABEL_PREFIX);
                crate::text::append_bytes(body, label);
                append_slice(body, &COLON_NL);
                assert(body@ =~= old(body)@ + inst_body(inst@));
                assert(header@ =~= old(header)@ + inst_header(inst@, old(header)@));
            },
            _ => {},
        }
    }

    fn compile_jmp(&self, inst: &Instruction, header: &mut Vec<u8>, body: &mut Vec<u8>)
        requires
            inst is Jmp,
        ensures
            final(header)@ == old(header)@ + inst_header(inst@, old(header)@),
            final(body)@ == old(body)@ + inst_body(inst@),
    {
        match inst {
            Instruction::Jmp(dest) => {
                append_slice(body, &GOTO);
                crate::text::append_bytes(body, dest);
                append_slice(body, &SEMI_NL);
                assert(body@ =~= old(body)@ + inst_body(inst@));
                assert(header@ =~= old(header)@ + inst_header(inst@, old(header)@));
            },
            _ => {},
        }
    }

    fn compile_br(&self, inst: &Instruction, header: &mut Vec<u8>, body: &mut Vec<u8>)
        requires
            inst is Br,
        ensures
            final(header)@ == old(header)@ + inst_header(inst@, old(header)@),
            final(body)@ == old(body)@ + inst_body(inst@),
    {
        match inst {
            Instruction::Br { cond, true_br, false_br } => {
                append_slice(body, &IF_OPEN);
                self.compile_value(cond, body);
                append_slice(body, &THEN_GOTO);
                crate::text::append_bytes(body, true_br);
                append_slice(body, &ELSE_GOTO);
                crate::text::append_bytes(body, false_br);
                append_slice(body, &SEMI_NL);
                assert(body@ =~= old(body)@ + inst_body(inst@));
                assert(header@ =~= old(header)@ + inst_header(inst@, old(header)@));
            },
            _ => {},
        }
    }

    fn compile_alloc(&self, inst: &Instruction, header: &mut Vec<u8>, body: &mut Vec<u8>)
        requires
            inst is Alloc,
        ensures
            final(header)@ == old(header)@ + inst_header(inst@, old(header)@),
            final(body)@ == old(body)@ + inst_body(inst@),
    {
        match inst {
            Instruction::Alloc { vreg, num, ty } => {
                append_slice(header, &VOIDPTR_VREG);
                append_decimal(header, *vreg);
                append_slice(header, &SEMI_NL);
                append_slice(body, &INDENT_VREG);
                append_decimal(body, *vreg);
                append_slice(body, &EQ_CAST);
                self.compile_type(ty, body);
                append_slice(body, &LBRACKET);
                append_decimal(body, *num as usize);
                append_slice(body, &ARRAY_INIT);
                assert(body@ =~= old(body)@ + inst_body(inst@));
                assert(header@ =~= old(header)@ + inst_header(inst@, old(header)@));
            },
            _ => {},
        }
    }

    fn compile_store(&self, inst: &Instruction, header: &mut Vec<u8>, body: &mut Vec<u8>)
        requires
            inst is Store,
        ensures
            final(header)@ == old(header)@ + inst_header(inst@, old(header)@),
            final(body)@ == old(body)@ + inst_body(inst@),
    {
        match inst {
            Instruction::Store { ptr, val, ty } => {
                append_slice(body, &STORE_OPEN);
                self.compile_type(ty, body);
                append_slice(body, &PTR_CAST);
                self.compile_value(ptr, body);
                append_slice(body, &STORE_MID);
                self.compile_value(val, body);
                append_slice(body, &SEMI_NL);
                assert(body@ =~= old(body)@ + inst_body(inst@));
                assert(header@ =~= old(header)@ + inst_header(inst@, old(header)@));
            },
            _ => {},
        }
    }

    fn compile_load(&self, inst: &Instruction, header: &mut Vec<u8>, body: &mut Vec<u8>)
        requires
            inst is Load,
        ensures
            final(header)@ == old(header)@ + inst_header(inst@, old(header)@),
            final(body)@ == old(body)@ + inst_body(inst@),
    {
        match inst {
            Instruction::Load { vreg, ptr, ty } => {
                self.compile_decl(ty, *vreg, header);
                append_slice(header, &NL);
                append_slice(body, &INDENT_VREG);
                append_decimal(body, *vreg);
                append_slice(body, &LOAD_OPEN);
                self.compile_type(ty, body);
                append_slice(body, &PTR_CAST);
                self.compile_value(ptr, body);
                append_slice(body, &LOAD_CLOSE);
                assert(body@ =~= old(body)@ + inst_body(inst@));
                assert(header@ =~= old(header)@ + inst_header(inst@, old(header)@));
            },
            _ => {},
        }
    }

    fn compile_offset(&self, inst: &Instruction, header: &mut Vec<u8>, body: &mut Vec<u8>)
        requires
            inst is Offset,
        ensures
            final(header)@ == old(header)@ + inst_header(inst@, old(header)@),
            final(body)@ == old(body)@ + inst_body(inst@),
    {
        match inst {
            Instruction::Offset { vreg, ptr, idx, ty } => {
                append_slice(header, &VOIDPTR_VREG);
                append_decimal(header, *vreg);
                append_slice(header, &SEMI_NL);
                append_slice(body, &INDENT_VREG);
                append_decimal(body, *vreg);
                append_slice(body, &OFFSET_OPEN);
                self.compile_type(ty, body);
                append_slice(body, &PTR_CAST);
                self.compile_value(ptr, body);
                append_slice(body, &INDEX_OPEN);
                append_decimal(body, *idx);
                append_slice(body, &INDEX_CLOSE);
                assert(body@ =~= old(body)@ + inst_body(inst@));
                assert(header@ =~= old(header)@ + inst_header(inst@, old(header)@));
            },
            _ => {},
        }
    }

    fn compile_phi(&self, inst: &Instruction, header: &mut Vec<u8>, body: &mut Vec<u8>)
        requires
            inst is Phi,
        ensures
            final(header)@ == old(header)@ + inst_header(inst@, old(header)@),
            final(body)@ == old(body)@ + inst_body(inst@),
    {
        match inst {
            Instruction::Phi { .. } => {
                assert(body@ =~= old(body)@ + inst_body(inst@));
                assert(header@ =~= old(header)@ + inst_header(inst@, old(header)@));
            },
            _ => {},
        }
    }

    fn compile_inst(&self, inst: &Instruction, header: &mut Vec<u8>, body: &mut Vec<u8>)
        ensures
            final(header)@ == old(header)@ + inst_header(inst@, old(header)@),
            final(body)@ == old(body)@ + inst_body(inst@),
    {
        match inst {
            Instruction::Ret { .. } => self.compile_ret(inst, header, body),
            Instruction::Copy { .. } => self.compile_copy(inst, header, body),
            Instruction::Op { .. } => self.compile_op(inst, header, body),
            Instruction::Call { .. } => self.compile_call(inst, header, body),
            Instruction::Label(..) => self.compile_label(inst, header, body),
            Instruction::Jmp(..) => self.compile_jmp(inst, header, body),
            Instruction::Br { .. } => self.compile_br(inst, header, body),
            Instruction::Alloc { .. } => self.compile_alloc(inst, header, body),
            Instruction::Store { .. } => self.compile_store(inst, header, body),
            Instruction::Load { .. } => self.compile_load(inst, header, body),
            Instruction::Offset { .. } => self.compile_offset(inst, header, body),
            Instruction::Phi { .. } => self.compile_phi(inst, header, body),
        }
    }

}


impl<'a> CBackend<'a> {
    /// The parameters of a function.
    fn compile_params(&self, params: &Vec<Parameter>, out: &mut Vec<u8>)
        ensures
            final(out)@ == old(out)@ + c_params(params@),
    {
        let ghost ps = params@;
        let mut i: usize = 0;
        assert(ps.take(0) =~= Seq::<Parameter>::empty());
        while i < params.len()
            invariant
                i <= ps.len(),
                ps == params@,
                out@ == old(out)@ + c_params(ps.take(i as int)),
            decreases ps.len() - i,
        {
            let p = params[i];
            if i > 0 {
                append_slice(out, &COMMA_SP);
            }
            let ghost before = out@;
            if p.is_vaarg {
                append_slice(out, &DOTS);
            } else {
                self.compile_type(&p.ty, out);
                append_slice(out, &SP_VREG);
                append_decimal(out, p.vreg);
            }
            proof {
                assert(out@ =~= before + c_param(p));
                assert(ps.take(i + 1).drop_last() =~= ps.take(i as int));
                if i == 0 {
                    assert(ps.take(1) =~= seq![ps[0]]);
                }
                assert(out@ =~= old(out)@ + c_params(ps.take(i + 1)));
            }
            i = i + 1;
        }
        assert(ps.take(ps.len() as int) =~= ps);
    }

    /// The instructions of a block.
    fn compile_block(&self, blk: &BasicBlock, header: &mut Vec<u8>, body: &mut Vec<u8>)
        ensures
            (final(header)@, final(body)@) == emit_insts(
                blk@.instructions,
                old(header)@,
                old(body)@ + BLOCK_COMMENT@ + decimal(blk.id.0 as nat) + COLON_NL@,
            ),
    {
        append_slice(body, &BLOCK_COMMENT);
        append_decimal(body, blk.id.0);
        append_slice(body, &COLON_NL);
        let ghost h0 = old(header)@;
        let ghost b0 = body@;
        let ghost is = blk@.instructions;
        let mut i: usize = 0;
        assert(is.take(0) =~= Seq::<InstrV>::empty());
        while i < blk.instructions.len()
            invariant
                i <= is.len(),
                is == blk@.instructions,
                b0 == old(body)@ + BLOCK_COMMENT@ + decimal(blk.id.0 as nat) + COLON_NL@,
                (header@, body@) == emit_insts(is.take(i as int), h0, b0),
            decreases is.len() - i,
        {
            self.compile_inst(&blk.instructions[i], header, body);
            proof {
                assert(is[i as int] == blk.instructions@[i as int]@);
                assert(is.take(i + 1).drop_last() =~= is.take(i as int));
            }
            i = i + 1;
        }
        assert(is.take(is.len() as int) =~= is);
    }

    #[verifier::rlimit(40)]
    fn compile_func(&self, func: &Function, body: &mut Vec<u8>)
        ensures
            final(body)@ == old(body)@ + c_function(func@),
    {
        if func.is_extern {
            append_slice(body, &EXTERN);
            self.compile_type(&func.ty, body);
            append_slice(body, &SPACE);
            crate::text::append_bytes(body, &func.name);
            append_slice(body, &LPAREN);
            self.compile_params(&func.params, body);
            append_slice(body, &RPAREN_SEMI);
            append_slice(body, &NL);
            assert(body@ =~= old(body)@ + c_function(func@));
            return;
        }
        let ghost bs = func@.cfg.blocks;
        let mut header: Vec<u8> = Vec::new();
        let mut local_body: Vec<u8> = Vec::new();
        let mut b: usize = 0;
        assert(bs.take(0) =~= Seq::<BlockV>::empty());
        while b < func.cfg.blocks.len()
            invariant
                b <= bs.len(),
                bs == func@.cfg.blocks,
                (header@, local_body@) == emit_blocks(bs.take(b as int), Seq::empty(), Seq::empty()),
            decreases bs.len() - b,
        {
            self.compile_block(&func.cfg.blocks[b], &mut header, &mut local_body);
            proof {
                assert(bs[b as int] == func.cfg.blocks@[b as int]@);
                assert(bs.take(b + 1).drop_last() =~= bs.take(b as int));
            }
            b = b + 1;
        }
        assert(bs.take(bs.len() as int) =~= bs);
        append_slice(body, &NL);
        self.compile_type(&func.ty, body);
        append_slice(body, &SPACE);
        crate::text::append_bytes(body, &func.name);
        append_slice(body, &LPAREN);
        self.compile_params(&func.params, body);
        append_slice(body, &BODY_OPEN);
        crate::text::append_bytes(body, &header);
        crate::text::append_bytes(body, &local_body);
        append_slice(body, &CLOSE_BRACE);
        assert(body@ =~= old(body)@ + c_function(func@));
    }

    fn compile_global(&self, data: &GlobData, global: &mut Vec<u8>)
        ensures
            final(global)@ == old(global)@ + c_global(data@),
    {
        if data.is_constant {
            append_slice(global, &STATIC_CONST);
        } else {
            append_slice(global, &STATIC);
        }
        append_slice(global, &GLOB);
        crate::text::append_bytes(global, &data.name);
        append_slice(global, &ARRAY_OPEN);
        let ghost before = global@;
        let ghost v = data.val@;
        let mut i: usize = 0;
        assert(v.take(0) =~= Seq::<u8>::empty());
        while i < data.val.len()
            invariant
                i <= v.len(),
                v == data.val@,
                global@ == before + c_bytes(v.take(i as int)),
            decreases v.len() - i,
        {
            if i > 0 {
                append_slice(global, &COMMA_SP);
            }
            append_hex_byte(global, data.val[i]);
            proof {
                assert(v.take(i + 1).drop_last() =~= v.take(i as int));
                if i == 0 {
                    assert(v.take(1) =~= seq![v[0]]);
                }
                assert(global@ =~= before + c_bytes(v.take(i + 1)));
            }
            i = i + 1;
        }
        assert(v.take(v.len() as int) =~= v);
        append_slice(global, &ARRAY_CLOSE);
        assert(global@ =~= old(global)@ + c_global(data@));
    }

    /// The C translation unit of the module.
    pub fn compile(&self) -> (r: Vec<u8>)
        ensures
            r@ == c_module(self.module@),
    {
        let m = self.module;
        let mut header: Vec<u8> = Vec::new();
        append_slice(&mut header, &MODULE_OPEN);
        crate::text::append_bytes(&mut header, &m.name);
        append_slice(&mut header, &MODULE_CLOSE);
        let ghost h0 = header@;
        let ghost gs = m@.globals;
        let mut i: usize = 0;
        assert(gs.take(0) =~= Seq::<GlobDataV>::empty());
        while i < m.globals.len()
            invariant
                i <= gs.len(),
                gs == m@.globals,
                header@ == h0 + c_globals(gs.take(i as int)),
            decreases gs.len() - i,
        {
            self.compile_global(&m.globals[i], &mut header);
            proof {
                assert(gs[i as int] == m.globals@[i as int]@);
                assert(gs.take(i + 1).drop_last() =~= gs.take(i as int));
                assert(header@ =~= h0 + c_globals(gs.take(i + 1)));
            }
            i = i + 1;
        }
        assert(gs.take(gs.len() as int) =~= gs);
        let ghost fs = m@.functions;
        let mut body: Vec<u8> = Vec::new();
        let mut j: usize = 0;
        assert(fs.take(0) =~= Seq::<FunctionV>::empty());
        assert(body@ =~= c_functions(fs.take(0)));
        while j < m.functions.len()
            invariant
                j <= fs.len(),
                fs == m@.functions,
                body@ == c_functions(fs.take(j as int)),
            decreases fs.len() - j,
        {
            self.compile_func(&m.functions[j], &mut body);
            proof {
                assert(fs[j as int] == m.functions@[j as int]@);
                assert(fs.take(j + 1).drop_last() =~= fs.take(j as int));
                assert(body@ =~= c_functions(fs.take(j + 1)));
            }
            j = j + 1;
        }
        assert(fs.take(fs.len() as int) =~= fs);
        let mut out = header;
        out.append(&mut body);
        assert(out@ =~= c_module(m@));
        out
    }
}


} // verus!
