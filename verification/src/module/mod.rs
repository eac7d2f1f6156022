//! The in-memory representation of a compilation unit: its functions and globals.

pub mod function;
pub mod instruction;

use vstd::prelude::*;

use crate::cfg::builder::{cfg_from_body, is_cfg_of, lacks_terminator, lemma_cfg_of_phi_free, CfgError};
use crate::cfg::critical_edges::{
    critical_list, first_label, is_critical, lemma_split_keeps_phi_sources, no_critical_edges, no_parallel_edges, split_inv,
};
use crate::cfg::parallel_moves::{distinct_dsts, moved_value, run_copies};
use crate::cfg::phi_lowering::{
    is_max_vreg, lemma_lowered_has_no_phis, lemma_lowered_moves, lowered, phi_budget, phi_list, phi_moves, phis_have_sources,
};
use crate::cfg::CfgV;
use crate::module::instruction::{InstrV, Type, ValueV};
use crate::ssa::builder::{
    build_ssa, closed_from_entry, local_reads, param_reads, phi_free, phis_at_joins, single_assignment, ssa_form_of,
};
use crate::ssa::{SsaValue, Vreg};
use crate::module::function::{Function, FunctionV, Parameter};
use crate::module::instruction::{no_phi, view_instrs, GlobData, GlobDataV};

verus! {

/// The compilation unit being compiled: its name, global data and functions.
#[derive(Debug)]
pub struct Module {
    pub name: Vec<u8>,
    pub globals: Vec<GlobData>,
    pub functions: Vec<Function>,
}

/// The mathematical view of a [`Module`].
pub struct ModuleV {
    pub name: Seq<u8>,
    pub globals: Seq<GlobDataV>,
    pub functions: Seq<FunctionV>,
}

pub open spec fn view_glob(g: GlobData) -> GlobDataV {
    g@
}

pub open spec fn view_function(f: Function) -> FunctionV {
    f@
}

impl View for Module {
    type V = ModuleV;

    open spec fn view(&self) -> ModuleV {
        ModuleV {
            name: self.name@,
            globals: self.globals@.map_values(|g: GlobData| view_glob(g)),
            functions: self.functions@.map_values(|f: Function| view_function(f)),
        }
    }
}

/// `f` is `old` with its control flow graph built from its body, and its body emptied.
pub open spec fn cfg_built(old: Function, f: Function) -> bool {
    &&& is_cfg_of(view_instrs(old.body@), f.cfg@)
    &&& f.body@.len() == 0
    &&& f.name == old.name
    &&& f.params == old.params
    &&& f.ty == old.ty
    &&& f.is_extern == old.is_extern
}

impl Module {
    /// Builds the control flow graph of every function, in order. Stops at the first
    /// function one of whose blocks does not end with a terminator, and returns its number
    /// with the error; the functions before it have their graphs, the others are unchanged.
    pub fn build_cfg(&mut self) -> (r: Result<(), (usize, CfgError)>)
        ensures
            final(self).name == old(self).name,
            final(self).globals == old(self).globals,
            final(self).functions@.len() == old(self).functions@.len(),
            match r {
                Ok(()) => forall|i: int|
                    0 <= i < old(self).functions@.len() ==> cfg_built(
                        old(self).functions@[i],
                        #[trigger] final(self).functions@[i],
                    ),
                Err((f, CfgError::MissingTerminator { block })) => {
                    &&& f < old(self).functions@.len()
                    &&& lacks_terminator(view_instrs(old(self).functions@[f as int].body@), block)
                    &&& forall|i: int| 0 <= i < f ==> cfg_built(old(self).functions@[i], #[trigger] final(self).functions@[i])
                    &&& forall|i: int|
                        f <= i < old(self).functions@.len() ==> #[trigger] final(self).functions@[i] == old(self).functions@[i]
                },
            },
    {
        let ghost fs = self.functions@;
        let mut i: usize = 0;
        while i < self.functions.len()
            invariant
                self.name == old(self).name,
                self.globals == old(self).globals,
                fs == old(self).functions@,
                self.functions@.len() == fs.len(),
                i <= fs.len(),
                forall|j: int| 0 <= j < i ==> cfg_built(fs[j], #[trigger] self.functions@[j]),
                forall|j: int| i <= j < fs.len() ==> #[trigger] self.functions@[j] == fs[j],
            decreases fs.len() - i,
        {
            match cfg_from_body(&self.functions[i].body) {
                Ok(g) => {
                    let ghost before = self.functions@;
                    self.functions[i].cfg = g;
                    self.functions[i].body = Vec::new();
                    proof {
                        assert forall|j: int| 0 <= j < fs.len() && j != i implies #[trigger] self.functions@[j]
                            == before[j] by {}
                    }
                },
                Err(e) => {
                    return Err((i, e));
                },
            }
            i = i + 1;
        }
        Ok(())
    }
}

/// Why a function could not go through SSA form.
#[derive(Debug, Clone, Copy, PartialEq, Eq, Structural)]
pub enum PipelineError {
    /// The control flow graph of the function is not well formed.
    MalformedGraph { function: usize },
    /// The function is not extern and has no block.
    EmptyBody { function: usize },
    /// A parameter of the function has the largest register number, after which no fresh
    /// value is left.
    RegisterOverflow { function: usize },
    /// A critical edge of the function enters a block without a label.
    UnlabeledBlock { function: usize },
    /// A phi node of the function has fewer sources than its block has predecessors.
    MissingPhiSource { function: usize },
    /// Lowering the phi nodes of the function could run out of register numbers.
    TooManyRegisters { function: usize },
}

/// What keeps function `i`, `f`, from SSA construction, if anything.
pub open spec fn ssa_check(f: FunctionV, i: usize) -> Option<PipelineError> {
    if f.is_extern {
        None
    } else if !f.cfg.wf() {
        Some(PipelineError::MalformedGraph { function: i })
    } else if f.cfg.len() == 0 {
        Some(PipelineError::EmptyBody { function: i })
    } else if exists|j: int| 0 <= j < f.params.len() && (#[trigger] f.params[j]).vreg == usize::MAX {
        Some(PipelineError::RegisterOverflow { function: i })
    } else {
        None
    }
}

/// `new` is `old` with its graph in SSA form (an extern function stays as it is).
pub open spec fn ssa_done(old: FunctionV, new: FunctionV) -> bool {
    &&& new.name == old.name
    &&& new.params == old.params
    &&& new.ty == old.ty
    &&& new.body == old.body
    &&& new.is_extern == old.is_extern
    &&& old.is_extern ==> new.cfg == old.cfg
    &&& !old.is_extern ==> ssa_form_of(old.cfg, new.cfg) && phis_at_joins(old.cfg, new.cfg)
    &&& !old.is_extern && phi_free(old.cfg) ==> param_reads(old.cfg, new.cfg, param_regs(old.params))
    &&& !old.is_extern && phi_free(old.cfg) ==> exists|r: Set<int>|
        closed_from_entry(new.cfg, r) && #[trigger] single_assignment(new.cfg, r, param_regs(old.params))
            && local_reads(old.cfg, new.cfg, r)
}

/// The registers of the parameters, with their types.
pub open spec fn param_regs(ps: Seq<Parameter>) -> Seq<(Vreg, Type)> {
    ps.map_values(|p: Parameter| (Vreg(p.vreg), p.ty))
}

/// Every critical edge of `g` enters a block with a label.
pub open spec fn critical_targets_labeled(g: CfgV) -> bool {
    forall|u: int, v: int| is_critical(g, u, v) ==> first_label(g.blocks[v].instructions) is Some
}

/// `h` is `g` with its critical edges split, `m` its largest register, and `new` is `h`
/// with its phi nodes lowered into copies that take temporary registers from `m + 1` on.
pub open spec fn left_ssa_via(g: CfgV, h: CfgV, m: usize, new: CfgV) -> bool {
    &&& exists|crit: Seq<(crate::cfg::BlockId, crate::cfg::BlockId)>| critical_list(g, crit) && #[trigger] split_inv(g, crit, crit.len() as int, h)
    &&& is_max_vreg(h, m)
    &&& phis_have_sources(h)
    &&& m < usize::MAX
    &&& m + 1 + phi_budget(h, h.len() as int) <= usize::MAX
    &&& exists|segs: Seq<Seq<Seq<InstrV>>>| #[trigger] lowered(h, new, segs, (m + 1) as usize)
    &&& (g.mirrored() && no_parallel_edges(g)) ==> no_critical_edges(h)
    &&& new.wf()
    &&& new.len() == h.len()
    &&& new.forward == h.forward
    &&& new.backward == h.backward
}

/// `new` is `old` out of SSA form.
pub open spec fn ssa_left(old: FunctionV, new: FunctionV) -> bool {
    &&& new.name == old.name
    &&& new.params == old.params
    &&& new.ty == old.ty
    &&& new.body == old.body
    &&& new.is_extern == old.is_extern
    &&& old.cfg.wf()
    &&& critical_targets_labeled(old.cfg)
    &&& exists|h: CfgV, m: usize| #[trigger] left_ssa_via(old.cfg, h, m, new.cfg)
}

/// Out of SSA form, a function has no phi node left, and when the edges of its graph were
/// mirrored, none of them twice, it has no critical edge either.
pub proof fn lemma_ssa_left_shape(old: FunctionV, new: FunctionV)
    requires
        ssa_left(old, new),
    ensures
        forall|b: int, i: int|
            0 <= b < new.cfg.len() && 0 <= i < new.cfg.blocks[b].instructions.len() ==> !(
            #[trigger] new.cfg.blocks[b].instructions[i]).is_phi(),
        old.cfg.mirrored() && no_parallel_edges(old.cfg) ==> no_critical_edges(new.cfg),
        exists|h: CfgV, m: usize, segs: Seq<Seq<Seq<InstrV>>>|
            #![trigger left_ssa_via(old.cfg, h, m, new.cfg), lowered(h, new.cfg, segs, (m + 1) as usize)]
            left_ssa_via(old.cfg, h, m, new.cfg) && lowered(h, new.cfg, segs, (m + 1) as usize)
                && forall|d: int, k: int, st: spec_fn(usize) -> ValueV, r: usize|
                0 <= d < h.len() && 0 <= k < h.backward[d].len() && distinct_dsts(
                    phi_moves(phi_list(h.blocks[d].instructions), k),
                ) && r <= m ==> #[trigger] run_copies(segs[d][k], st)(r) == moved_value(
                    phi_moves(phi_list(h.blocks[d].instructions), k),
                    st,
                    r,
                ),
{
    let (h, m) = choose|h: CfgV, m: usize| #[trigger] left_ssa_via(old.cfg, h, m, new.cfg);
    assert(left_ssa_via(old.cfg, h, m, new.cfg));
    let segs = choose|segs: Seq<Seq<Seq<InstrV>>>| #[trigger] lowered(h, new.cfg, segs, (m + 1) as usize);
    lemma_lowered_has_no_phis(h, new.cfg, segs, (m + 1) as usize);
    lemma_lowered_moves(h, new.cfg, segs, m);
    if old.cfg.mirrored() && no_parallel_edges(old.cfg) {
        assert forall|u: int, v: int| !is_critical(new.cfg, u, v) by {
            assert(!is_critical(h, u, v));
        }
    }
}

/// A function without phi nodes that went through SSA construction has, for every phi node
/// it got, a source per predecessor: leaving SSA form never fails on it for a missing
/// source.
pub proof fn lemma_built_ssa_has_phi_sources(old: FunctionV, new: FunctionV, i: usize)
    requires
        ssa_done(old, new),
        !old.is_extern,
        phi_free(old.cfg),
    ensures
        phis_have_sources(new.cfg),
        !leave_fails(new, i, PipelineError::MissingPhiSource { function: i }),
{
    assert(phis_have_sources(old.cfg));
    assert(phis_have_sources(new.cfg));
    assert forall|crit: Seq<(crate::cfg::BlockId, crate::cfg::BlockId)>, h: CfgV|
        critical_list(new.cfg, crit) && #[trigger] split_inv(new.cfg, crit, crit.len() as int, h) implies phis_have_sources(h) by {
        lemma_split_keeps_phi_sources(new.cfg, crit, h);
    }
}

/// A function whose body holds no phi node (as every function that the parser reads) and
/// whose graph was built from that body is, once in SSA form, in single assignment form over
/// a set of blocks that holds every block reachable from its entry; and leaving SSA form
/// never fails on it for a missing phi source.
pub proof fn lemma_pipeline_ssa(parsed: Function, built: Function, ssa: FunctionV, i: usize)
    requires
        no_phi(view_instrs(parsed.body@)),
        cfg_built(parsed, built),
        ssa_done(built@, ssa),
        !parsed.is_extern,
    ensures
        exists|r: Set<int>|
            closed_from_entry(ssa.cfg, r) && #[trigger] single_assignment(ssa.cfg, r, param_regs(ssa.params)) && local_reads(
                built.cfg@,
                ssa.cfg,
                r,
            ),
        !leave_fails(ssa, i, PipelineError::MissingPhiSource { function: i }),
{
    lemma_cfg_of_phi_free(view_instrs(parsed.body@), built.cfg@);
    lemma_built_ssa_has_phi_sources(built@, ssa, i);
}

/// Function `i`, `f`, cannot leave SSA form, for the reason `e`.
pub open spec fn leave_fails(f: FunctionV, i: usize, e: PipelineError) -> bool {
    match e {
        PipelineError::MalformedGraph { function } => function == i && !f.cfg.wf(),
        PipelineError::UnlabeledBlock { function } => function == i && f.cfg.wf() && !critical_targets_labeled(f.cfg),
        PipelineError::MissingPhiSource { function } => {
            &&& function == i
            &&& f.cfg.wf()
            &&& critical_targets_labeled(f.cfg)
            &&& exists|crit: Seq<(crate::cfg::BlockId, crate::cfg::BlockId)>, h: CfgV|
                critical_list(f.cfg, crit) && #[trigger] split_inv(f.cfg, crit, crit.len() as int, h) && !phis_have_sources(h)
        },
        PipelineError::TooManyRegisters { function } => {
            &&& function == i
            &&& f.cfg.wf()
            &&& critical_targets_labeled(f.cfg)
            &&& exists|crit: Seq<(crate::cfg::BlockId, crate::cfg::BlockId)>, h: CfgV, m: usize|
                critical_list(f.cfg, crit) && #[trigger] split_inv(f.cfg, crit, crit.len() as int, h) && #[trigger] is_max_vreg(h, m)
                    && phis_have_sources(h) && (m == usize::MAX || m + 1 + phi_budget(h, h.len() as int) > usize::MAX)
        },
        _ => false,
    }
}

/// Converts the graph of function `i`, `f`, into SSA form, if it can be.
fn function_to_ssa(f: &mut Function, i: usize) -> (r: Result<(), PipelineError>)
    ensures
        match r {
            Ok(()) => ssa_check(old(f)@, i) is None && ssa_done(old(f)@, final(f)@),
            Err(e) => ssa_check(old(f)@, i) == Some(e),
        },
{
    if f.is_extern {
        return Ok(());
    }
    if !f.cfg.is_well_formed() {
        return Err(PipelineError::MalformedGraph { function: i });
    }
    if f.cfg.blocks.len() == 0 {
        return Err(PipelineError::EmptyBody { function: i });
    }
    let mut params: Vec<(Vreg, Type)> = Vec::new();
    let mut k: usize = 0;
    while k < f.params.len()
        invariant
            f@ == old(f)@,
            !old(f)@.is_extern,
            old(f)@.cfg.wf(),
            old(f)@.cfg.len() > 0,
            k <= f.params@.len(),
            params@.len() == k,
            forall|j: int| 0 <= j < k ==> (#[trigger] params@[j]).0.0 < usize::MAX,
            forall|j: int| 0 <= j < k ==> (#[trigger] params@[j]) == (Vreg(f@.params[j].vreg), f@.params[j].ty),
            forall|j: int| 0 <= j < k ==> (#[trigger] f.params@[j]).vreg < usize::MAX,
        decreases f.params@.len() - k,
    {
        let p = f.params[k];
        if p.vreg == usize::MAX {
            proof {
                assert(f@.params[k as int].vreg == usize::MAX);
            }
            return Err(PipelineError::RegisterOverflow { function: i });
        }
        params.push((Vreg(p.vreg), p.ty));
        k = k + 1;
    }
    proof {
        assert(!(exists|j: int| 0 <= j < f@.params.len() && (#[trigger] f@.params[j]).vreg == usize::MAX));
    }
    proof {
        assert(params@ =~= param_regs(f@.params));
    }
    let ghost g = f.cfg@;
    build_ssa(&mut f.cfg, &params);
    proof {
        if phi_free(g) {
            let r = choose|r: Set<int>|
                closed_from_entry(f.cfg@, r) && #[trigger] single_assignment(f.cfg@, r, params@) && local_reads(g, f.cfg@, r);
            assert(closed_from_entry(f@.cfg, r) && single_assignment(f@.cfg, r, param_regs(old(f)@.params)) && local_reads(
                old(f)@.cfg,
                f@.cfg,
                r,
            ));
        }
    }
    Ok(())
}

/// Takes function `i`, `f`, out of SSA form, if it can be.
fn function_out_of_ssa(f: &mut Function, i: usize) -> (r: Result<(), PipelineError>)
    ensures
        match r {
            Ok(()) => ssa_left(old(f)@, final(f)@),
            Err(e) => leave_fails(old(f)@, i, e),
        },
{
    let ghost g = f.cfg@;
    if !f.cfg.is_well_formed() {
        return Err(PipelineError::MalformedGraph { function: i });
    }
    if !f.cfg.critical_targets_labeled() {
        return Err(PipelineError::UnlabeledBlock { function: i });
    }
    f.cfg.split_critical_edges();
    let ghost h = f.cfg@;
    let ghost crit = choose|crit: Seq<(crate::cfg::BlockId, crate::cfg::BlockId)>|
        critical_list(g, crit) && #[trigger] split_inv(g, crit, crit.len() as int, h);
    proof {
        assert(critical_list(g, crit) && split_inv(g, crit, crit.len() as int, h));
    }
    let mut next = f.cfg.get_max_vreg();
    let ghost m = next;
    if !f.cfg.phis_have_sources_check() {
        return Err(PipelineError::MissingPhiSource { function: i });
    }
    if next == usize::MAX || !f.cfg.phi_budget_fits(next + 1) {
        proof {
            assert(g == old(f)@.cfg);
            assert(g.wf());
            assert(critical_list(g, crit) && split_inv(g, crit, crit.len() as int, h));
            assert(is_max_vreg(h, m));
            assert(phis_have_sources(h));
            assert(m == usize::MAX || m + 1 + phi_budget(h, h.len() as int) > usize::MAX);
            assert(leave_fails(old(f)@, i, PipelineError::TooManyRegisters { function: i }));
        }
        return Err(PipelineError::TooManyRegisters { function: i });
    }
    next = next + 1;
    proof {
        assert((g.mirrored() && no_parallel_edges(g)) ==> no_critical_edges(h));
    }
    f.cfg.lower_phis_to_moves(&mut next);
    proof {
        let nf = f.cfg@;
        let segs = choose|segs: Seq<Seq<Seq<InstrV>>>| #[trigger] lowered(h, nf, segs, (m + 1) as usize);
        assert(lowered(h, nf, segs, (m + 1) as usize));
        assert(left_ssa_via(g, h, m, nf));
        assert(g == old(f)@.cfg);
        assert(f@.name == old(f)@.name);
        assert(f@.params == old(f)@.params);
        assert(f@.body == old(f)@.body);
        assert(g.wf());
        assert(critical_targets_labeled(g));
        assert(f@.ty == old(f)@.ty);
        assert(f@.is_extern == old(f)@.is_extern);
        assert(f@.cfg == nf);
        assert(ssa_left(old(f)@, f@));
    }
    Ok(())
}

impl Module {
    /// Converts the graph of every function that is not extern into SSA form, in order, with
    /// the parameters as the values of their own registers. Stops at the first function that
    /// cannot be converted; the functions before it are converted, the others unchanged.
    pub fn build_ssa(&mut self) -> (r: Result<(), PipelineError>)
        ensures
            final(self).name == old(self).name,
            final(self).globals == old(self).globals,
            final(self).functions@.len() == old(self).functions@.len(),
            match r {
                Ok(()) => forall|i: int|
                    0 <= i < old(self).functions@.len() ==> ssa_check(old(self).functions@[i]@, i as usize) is None
                        && ssa_done(old(self).functions@[i]@, #[trigger] final(self).functions@[i]@),
                Err(e) => exists|i: int|
                    0 <= i < old(self).functions@.len() && ssa_check(old(self).functions@[i]@, i as usize) == Some(e)
                        && forall|j: int|
                        0 <= j < i ==> #[trigger] ssa_check(old(self).functions@[j]@, j as usize) is None,
            },
    {
        let ghost fs = self.functions@;
        let mut i: usize = 0;
        while i < self.functions.len()
            invariant
                self.name == old(self).name,
                self.globals == old(self).globals,
                fs == old(self).functions@,
                self.functions@.len() == fs.len(),
                i <= fs.len(),
                forall|j: int| 0 <= j < i ==> #[trigger] ssa_check(fs[j]@, j as usize) is None,
                forall|j: int| 0 <= j < i ==> ssa_done(fs[j]@, #[trigger] self.functions@[j]@),
                forall|j: int| i <= j < fs.len() ==> #[trigger] self.functions@[j] == fs[j],
            decreases fs.len() - i,
        {
            let ghost before = self.functions@;
            let res = function_to_ssa(&mut self.functions[i], i);
            proof {
                assert forall|j: int| 0 <= j < fs.len() && j != i implies #[trigger] self.functions@[j] == before[j] by {}
                assert(before[i as int] == fs[i as int]);
            }
            match res {
                Ok(()) => {
                    proof {
                        assert forall|j: int| 0 <= j < i + 1 implies #[trigger] ssa_check(fs[j]@, j as usize) is None by {
                            if j == i {
                                assert(ssa_check(fs[i as int]@, i) is None);
                            }
                        }
                        assert forall|j: int| 0 <= j < i + 1 implies ssa_done(
                            fs[j]@,
                            #[trigger] self.functions@[j]@,
                        ) by {
                            if j < i {
                                assert(self.functions@[j] == before[j]);
                                assert(ssa_done(fs[j]@, before[j]@));
                            } else {
                                assert(j == i);
                                assert(ssa_done(fs[j]@, self.functions@[j]@));
                            }
                        }
                    }
                },
                Err(e) => {
                    proof {
                        assert(ssa_check(fs[i as int]@, i) == Some(e));

                    }
                    return Err(e);
                },
            }
            i = i + 1;
        }
        Ok(())
    }

    /// Takes every function out of SSA form, in order: splits its critical edges, then lowers
    /// its phi nodes into copies, with temporary registers taken from its largest register
    /// on. Stops at the first function that cannot be handled; the functions before it are
    /// done, the others unchanged.
    pub fn leave_ssa(&mut self) -> (r: Result<(), PipelineError>)
        ensures
            final(self).name == old(self).name,
            final(self).globals == old(self).globals,
            final(self).functions@.len() == old(self).functions@.len(),
            match r {
                Ok(()) => forall|i: int|
                    0 <= i < old(self).functions@.len() ==> ssa_left(old(self).functions@[i]@, #[trigger] final(self).functions@[i]@),
                Err(e) => exists|i: int|
                    0 <= i < old(self).functions@.len() && leave_fails(old(self).functions@[i]@, i as usize, e)
                        && forall|j: int|
                        0 <= j < i ==> ssa_left(old(self).functions@[j]@, #[trigger] final(self).functions@[j]@),
            },
    {
        let ghost fs = self.functions@;
        let mut i: usize = 0;
        while i < self.functions.len()
            invariant
                self.name == old(self).name,
                self.globals == old(self).globals,
                fs == old(self).functions@,
                self.functions@.len() == fs.len(),
                i <= fs.len(),
                forall|j: int| 0 <= j < i ==> ssa_left(fs[j]@, #[trigger] self.functions@[j]@),
                forall|j: int| i <= j < fs.len() ==> #[trigger] self.functions@[j] == fs[j],
            decreases fs.len() - i,
        {
            let ghost before = self.functions@;
            let res = function_out_of_ssa(&mut self.functions[i], i);
            proof {
                assert forall|j: int| 0 <= j < fs.len() && j != i implies #[trigger] self.functions@[j] == before[j] by {}
            }
            if let Err(e) = res {
                return Err(e);
            }
            i = i + 1;
        }
        Ok(())
    }
}

} // verus!
