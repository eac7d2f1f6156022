//! Functions and their parameters.

use vstd::prelude::*;

use crate::cfg::{CfgV, ControlFlowGraph};
use crate::module::instruction::{view_instrs, InstrV, Instruction, Type};

verus! {

/// A parameter of a [`Function`]: its virtual register and type, or the `...` of a variadic
/// function.
#[derive(Debug, Clone, Copy, PartialEq, Eq, Structural)]
pub struct Parameter {
    pub vreg: usize,
    pub ty: Type,
    pub is_vaarg: bool,
}

/// A function of the compilation unit: its name, parameters, return type and body.
///
/// The body is the linear list of instructions the parser produced; once the control flow
/// graph is built, the instructions live in the blocks of `cfg` and the body is empty. An
/// extern function has no body.
#[derive(Debug)]
pub struct Function {
    pub name: Vec<u8>,
    pub params: Vec<Parameter>,
    pub ty: Type,
    pub body: Vec<Instruction>,
    pub cfg: ControlFlowGraph,
    pub is_extern: bool,
}

/// The mathematical view of a [`Function`].
pub struct FunctionV {
    pub name: Seq<u8>,
    pub params: Seq<Parameter>,
    pub ty: Type,
    pub body: Seq<InstrV>,
    pub cfg: CfgV,
    pub is_extern: bool,
}

impl View for Function {
    type V = FunctionV;

    open spec fn view(&self) -> FunctionV {
        FunctionV {
            name: self.name@,
            params: self.params@,
            ty: self.ty,
            body: view_instrs(self.body@),
            cfg: self.cfg@,
            is_extern: self.is_extern,
        }
    }
}

} // verus!
