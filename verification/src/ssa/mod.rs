//! Converting the control flow graph of a function into SSA form, following Braun et al.,
//! "Simple and Efficient Construction of Static Single Assignment Form".

pub mod builder;

use vstd::prelude::*;

use crate::cfg::BlockId;

verus! {

/// A virtual register of the input, which may be assigned many times.
#[derive(Debug, Clone, Copy, PartialEq, Eq, Structural, Hash)]
pub struct Vreg(pub usize);

/// A value of the SSA form, assigned exactly once.
#[derive(Debug, Clone, Copy, PartialEq, Eq, Structural, Hash)]
pub struct SsaValue(pub usize);

/// A phi node under construction: the block it stands in, the register it merges, and one
/// operand per predecessor of the block.
#[derive(Debug)]
pub struct PhiNode {
    pub block: BlockId,
    pub vreg: Vreg,
    pub operands: Vec<SsaValue>,
}

/// The mathematical view of a [`PhiNode`].
pub struct PhiV {
    pub block: BlockId,
    pub vreg: Vreg,
    pub operands: Seq<SsaValue>,
}

impl View for PhiNode {
    type V = PhiV;

    open spec fn view(&self) -> PhiV {
        PhiV { block: self.block, vreg: self.vreg, operands: self.operands@ }
    }
}

} // verus!
