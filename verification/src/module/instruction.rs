//! Instructions, values and types of Optic's IR.
//!
//! Every type that holds byte strings has a view, in which the byte strings are
//! sequences; the contracts of the library speak of these views.

use vstd::prelude::*;

verus! {

/// A value that an instruction can use: an immediate, a virtual register or a global.
///
/// A floating point literal is kept as the text it was written with.
#[derive(Debug)]
pub enum Value {
    IntLit(usize),
    FloatLit(Vec<u8>),
    Vreg(usize),
    GlobSym(Vec<u8>),
    /// The value returned by `ret void`
    Void,
}

/// The mathematical view of a [`Value`].
pub enum ValueV {
    IntLit(usize),
    FloatLit(Seq<u8>),
    Vreg(usize),
    GlobSym(Seq<u8>),
    Void,
}

impl View for Value {
    type V = ValueV;

    open spec fn view(&self) -> ValueV {
        match self {
            Value::IntLit(n) => ValueV::IntLit(*n),
            Value::FloatLit(t) => ValueV::FloatLit(t@),
            Value::Vreg(v) => ValueV::Vreg(*v),
            Value::GlobSym(s) => ValueV::GlobSym(s@),
            Value::Void => ValueV::Void,
        }
    }
}

impl ValueV {
    pub open spec fn as_vreg(self) -> Option<usize> {
        match self {
            ValueV::Vreg(id) => Some(id),
            _ => None,
        }
    }
}

impl Value {
    /// The register, if the value is one.
    pub fn as_vreg(&self) -> (r: Option<usize>)
        ensures
            r == self@.as_vreg(),
    {
        match self {
            Value::Vreg(id) => Some(*id),
            _ => None,
        }
    }

    /// A copy of this value.
    pub fn duplicate(&self) -> (r: Value)
        ensures
            r@ == self@,
    {
        match self {
            Value::IntLit(n) => Value::IntLit(*n),
            Value::FloatLit(t) => Value::FloatLit(copy_bytes(t)),
            Value::Vreg(v) => Value::Vreg(*v),
            Value::GlobSym(s) => Value::GlobSym(copy_bytes(s)),
            Value::Void => Value::Void,
        }
    }
}

/// A copy of a byte string.
pub fn copy_bytes(v: &Vec<u8>) -> (r: Vec<u8>)
    ensures
        r@ == v@,
{
    let mut r: Vec<u8> = Vec::new();
    let mut i: usize = 0;
    while i < v.len()
        invariant
            i <= v.len(),
            r@ == v@.subrange(0, i as int),
        decreases v.len() - i,
    {
        r.push(v[i]);
        i = i + 1;
    }
    assert(r@ == v@);
    r
}

/// Whether two byte strings are equal.
pub fn bytes_eq(a: &Vec<u8>, b: &Vec<u8>) -> (r: bool)
    ensures
        r == (a@ == b@),
{
    if a.len() != b.len() {
        return false;
    }
    let mut i: usize = 0;
    while i < a.len()
        invariant
            i <= a.len(),
            a.len() == b.len(),
            a@.subrange(0, i as int) == b@.subrange(0, i as int),
        decreases a.len() - i,
    {
        if a[i] != b[i] {
            assert(a@[i as int] != b@[i as int]);
            return false;
        }
        assert(a@.subrange(0, i + 1) == a@.subrange(0, i as int).push(a@[i as int]));
        assert(b@.subrange(0, i + 1) == b@.subrange(0, i as int).push(b@[i as int]));
        i = i + 1;
    }
    assert(a@ == a@.subrange(0, a.len() as int));
    assert(b@ == b@.subrange(0, b.len() as int));
    true
}

/// The type of an instruction.
#[derive(Debug, Clone, Copy, PartialEq, Eq, Structural)]
pub enum Type {
    I32,
    I1,
    F32,
    Ptr,
    Ascii,
    Void,
}

/// The kind of a binary or comparison operation.
#[derive(Debug, Clone, Copy, PartialEq, Eq, Structural)]
pub enum OpKind {
    Add,
    Sub,
    Mul,
    Div,
    Udiv,
    CmpEq,
    CmpNe,
    CmpSlt,
    CmpUlt,
    CmpSgt,
    CmpUgt,
}

/// Integer division that rounds toward zero.
pub open spec fn div_toward_zero(a: int, b: int) -> int {
    let q = (if a < 0 { -a } else { a }) / (if b < 0 { -b } else { b });
    if (a < 0) != (b < 0) {
        -q
    } else {
        q
    }
}

/// What operation `k` computes from the operands `a` and `b`: their sum, difference,
/// product or quotient, or for a comparison 1 when it holds and 0 when it does not.
pub open spec fn op_value(k: OpKind, a: int, b: int) -> int {
    match k {
        OpKind::Add => a + b,
        OpKind::Sub => a - b,
        OpKind::Mul => a * b,
        OpKind::Div | OpKind::Udiv => div_toward_zero(a, b),
        OpKind::CmpEq => if a == b { 1 } else { 0 },
        OpKind::CmpNe => if a != b { 1 } else { 0 },
        OpKind::CmpSlt | OpKind::CmpUlt => if a < b { 1 } else { 0 },
        OpKind::CmpSgt | OpKind::CmpUgt => if a > b { 1 } else { 0 },
    }
}

/// A single instruction and its operands.
#[derive(Debug)]
pub enum Instruction {
    Ret { val: Value, ty: Type },
    Copy { vreg: usize, val: Value, ty: Type },
    Op { vreg: usize, kind: OpKind, lhs: Value, rhs: Value, ty: Type },
    Call { vreg: usize, func: Vec<u8>, args: Vec<(Type, Value)>, ty: Type, discard_value: bool },
    Label(Vec<u8>),
    Jmp(Vec<u8>),
    Br { cond: Value, true_br: Vec<u8>, false_br: Vec<u8> },
    Alloc { vreg: usize, num: u32, ty: Type },
    Store { ptr: Value, val: Value, ty: Type },
    Load { vreg: usize, ptr: Value, ty: Type },
    Offset { vreg: usize, ptr: Value, idx: usize, ty: Type },
    Phi { vreg: usize, srcs: Vec<Value>, ty: Type },
}

/// The mathematical view of an [`Instruction`].
pub enum InstrV {
    Ret { val: ValueV, ty: Type },
    Copy { vreg: usize, val: ValueV, ty: Type },
    Op { vreg: usize, kind: OpKind, lhs: ValueV, rhs: ValueV, ty: Type },
    Call { vreg: usize, func: Seq<u8>, args: Seq<(Type, ValueV)>, ty: Type, discard_value: bool },
    Label(Seq<u8>),
    Jmp(Seq<u8>),
    Br { cond: ValueV, true_br: Seq<u8>, false_br: Seq<u8> },
    Alloc { vreg: usize, num: u32, ty: Type },
    Store { ptr: ValueV, val: ValueV, ty: Type },
    Load { vreg: usize, ptr: ValueV, ty: Type },
    Offset { vreg: usize, ptr: ValueV, idx: usize, ty: Type },
    Phi { vreg: usize, srcs: Seq<ValueV>, ty: Type },
}

pub open spec fn view_arg(a: (Type, Value)) -> (Type, ValueV) {
    (a.0, a.1@)
}

pub open spec fn view_value(v: Value) -> ValueV {
    v@
}

impl View for Instruction {
    type V = InstrV;

    open spec fn view(&self) -> InstrV {
        match self {
            Instruction::Ret { val, ty } => InstrV::Ret { val: val@, ty: *ty },
            Instruction::Copy { vreg, val, ty } => InstrV::Copy { vreg: *vreg, val: val@, ty: *ty },
            Instruction::Op { vreg, kind, lhs, rhs, ty } => InstrV::Op {
                vreg: *vreg,
                kind: *kind,
                lhs: lhs@,
                rhs: rhs@,
                ty: *ty,
            },
            Instruction::Call { vreg, func, args, ty, discard_value } => InstrV::Call {
                vreg: *vreg,
                func: func@,
                args: args@.map_values(|a: (Type, Value)| view_arg(a)),
                ty: *ty,
                discard_value: *discard_value,
            },
            Instruction::Label(l) => InstrV::Label(l@),
            Instruction::Jmp(l) => InstrV::Jmp(l@),
            Instruction::Br { cond, true_br, false_br } => InstrV::Br {
                cond: cond@,
                true_br: true_br@,
                false_br: false_br@,
            },
            Instruction::Alloc { vreg, num, ty } => InstrV::Alloc { vreg: *vreg, num: *num, ty: *ty },
            Instruction::Store { ptr, val, ty } => InstrV::Store { ptr: ptr@, val: val@, ty: *ty },
            Instruction::Load { vreg, ptr, ty } => InstrV::Load { vreg: *vreg, ptr: ptr@, ty: *ty },
            Instruction::Offset { vreg, ptr, idx, ty } => InstrV::Offset {
                vreg: *vreg,
                ptr: ptr@,
                idx: *idx,
                ty: *ty,
            },
            Instruction::Phi { vreg, srcs, ty } => InstrV::Phi {
                vreg: *vreg,
                srcs: srcs@.map_values(|v: Value| view_value(v)),
                ty: *ty,
            },
        }
    }
}

impl InstrV {
    pub open spec fn is_label(self) -> bool {
        self is Label
    }

    pub open spec fn is_terminator(self) -> bool {
        self is Jmp || self is Br || self is Ret
    }

    pub open spec fn is_phi(self) -> bool {
        self is Phi
    }

    /// The register the instruction assigns, if any (a call has one even when it discards
    /// its result).
    pub open spec fn written(self) -> Option<usize> {
        match self {
            InstrV::Copy { vreg, .. } => Some(vreg),
            InstrV::Op { vreg, .. } => Some(vreg),
            InstrV::Call { vreg, .. } => Some(vreg),
            InstrV::Alloc { vreg, .. } => Some(vreg),
            InstrV::Load { vreg, .. } => Some(vreg),
            InstrV::Offset { vreg, .. } => Some(vreg),
            InstrV::Phi { vreg, .. } => Some(vreg),
            _ => None,
        }
    }
}

/// The views of a sequence of instructions.
pub open spec fn view_instrs(s: Seq<Instruction>) -> Seq<InstrV> {
    s.map_values(|i: Instruction| i@)
}

/// No instruction of `s` is a phi node.
pub open spec fn no_phi(s: Seq<InstrV>) -> bool {
    forall|j: int| 0 <= j < s.len() ==> !(#[trigger] s[j] is Phi)
}

impl Instruction {
    /// Whether the instruction is a label.
    pub fn is_label(&self) -> (r: bool)
        ensures
            r == self@.is_label(),
    {
        match self {
            Instruction::Label(_) => true,
            _ => false,
        }
    }

    /// Whether the instruction ends a basic block: a jump, a branch or a return.
    pub fn is_terminator(&self) -> (r: bool)
        ensures
            r == self@.is_terminator(),
    {
        match self {
            Instruction::Jmp(_) | Instruction::Br { .. } | Instruction::Ret { .. } => true,
            _ => false,
        }
    }

    /// Whether the instruction is a phi node.
    pub fn is_phi(&self) -> (r: bool)
        ensures
            r == self@.is_phi(),
    {
        match self {
            Instruction::Phi { .. } => true,
            _ => false,
        }
    }

    /// The name of the label, if the instruction is one.
    pub fn get_label_name(&self) -> (r: Option<&Vec<u8>>)
        ensures
            match self@ {
                InstrV::Label(name) => r is Some && r.unwrap()@ == name,
                _ => r is None,
            },
    {
        match self {
            Instruction::Label(name) => Some(name),
            _ => None,
        }
    }

    /// A copy of this instruction.
    pub fn duplicate(&self) -> (r: Instruction)
        ensures
            r@ == self@,
    {
        match self {
            Instruction::Ret { val, ty } => Instruction::Ret { val: val.duplicate(), ty: *ty },
            Instruction::Copy { vreg, val, ty } => Instruction::Copy { vreg: *vreg, val: val.duplicate(), ty: *ty },
            Instruction::Op { vreg, kind, lhs, rhs, ty } => Instruction::Op {
                vreg: *vreg,
                kind: *kind,
                lhs: lhs.duplicate(),
                rhs: rhs.duplicate(),
                ty: *ty,
            },
            Instruction::Call { vreg, func, args, ty, discard_value } => {
                let mut new_args: Vec<(Type, Value)> = Vec::new();
                let mut i: usize = 0;
                while i < args.len()
                    invariant
                        i <= args.len(),
                        new_args.len() == i,
                        forall|j: int| 0 <= j < i ==> view_arg(#[trigger] new_args@[j]) == view_arg(args@[j]),
                    decreases args.len() - i,
                {
                    let a = (args[i].0, args[i].1.duplicate());
                    new_args.push(a);
                    i = i + 1;
                }
                assert(new_args@.map_values(|a: (Type, Value)| view_arg(a)) =~= args@.map_values(|a: (Type, Value)| view_arg(a)));
                Instruction::Call {
                    vreg: *vreg,
                    func: copy_bytes(func),
                    args: new_args,
                    ty: *ty,
                    discard_value: *discard_value,
                }
            },
            Instruction::Label(l) => Instruction::Label(copy_bytes(l)),
            Instruction::Jmp(l) => Instruction::Jmp(copy_bytes(l)),
            Instruction::Br { cond, true_br, false_br } => Instruction::Br {
                cond: cond.duplicate(),
                true_br: copy_bytes(true_br),
                false_br: copy_bytes(false_br),
            },
            Instruction::Alloc { vreg, num, ty } => Instruction::Alloc { vreg: *vreg, num: *num, ty: *ty },
            Instruction::Store { ptr, val, ty } => Instruction::Store {
                ptr: ptr.duplicate(),
                val: val.duplicate(),
                ty: *ty,
            },
            Instruction::Load { vreg, ptr, ty } => Instruction::Load { vreg: *vreg, ptr: ptr.duplicate(), ty: *ty },
            Instruction::Offset { vreg, ptr, idx, ty } => Instruction::Offset {
                vreg: *vreg,
                ptr: ptr.duplicate(),
                idx: *idx,
                ty: *ty,
            },
            Instruction::Phi { vreg, srcs, ty } => Instruction::Phi { vreg: *vreg, srcs: duplicate_values(srcs), ty: *ty },
        }
    }
}

/// A copy of a list of values.
pub fn duplicate_values(v: &Vec<Value>) -> (r: Vec<Value>)
    ensures
        r@.map_values(|x: Value| view_value(x)) == v@.map_values(|x: Value| view_value(x)),
{
    let mut r: Vec<Value> = Vec::new();
    let mut i: usize = 0;
    while i < v.len()
        invariant
            i <= v.len(),
            r.len() == i,
            forall|j: int| 0 <= j < i ==> (#[trigger] r@[j])@ == v@[j]@,
        decreases v.len() - i,
    {
        r.push(v[i].duplicate());
        i = i + 1;
    }
    assert(r@.map_values(|x: Value| view_value(x)) =~= v@.map_values(|x: Value| view_value(x)));
    r
}

/// A global datum (the `data` instruction): its name, raw bytes and whether it is constant.
#[derive(Debug)]
pub struct GlobData {
    pub name: Vec<u8>,
    pub val: Vec<u8>,
    pub is_constant: bool,
}

/// The mathematical view of a [`GlobData`].
pub struct GlobDataV {
    pub name: Seq<u8>,
    pub val: Seq<u8>,
    pub is_constant: bool,
}

impl View for GlobData {
    type V = GlobDataV;

    open spec fn view(&self) -> GlobDataV {
        GlobDataV { name: self.name@, val: self.val@, is_constant: self.is_constant }
    }
}

} // verus!
