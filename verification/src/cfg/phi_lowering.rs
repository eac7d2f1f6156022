//! Leaving SSA form: the phi nodes of each block become copies in its predecessors.

use vstd::prelude::*;

use crate::cfg::parallel_moves::{
    copy_of, distinct_dsts, first_ready_from, is_self_move, lemma_first_ready_from, lemma_step_decreases, moved_value,
    non_self, ready, redirect, regs_below, run_copies, seq_run, seq_step, sequentialize_parallel_moves, step_credit,
    view_moves, writes, Move, MoveV,
};
use crate::cfg::{view_block, BasicBlock, BlockId, BlockV, CfgV, ControlFlowGraph};
use crate::module::instruction::{duplicate_values, view_instrs, view_value, InstrV, Instruction, Type, Value, ValueV};

verus! {

/// The instructions of `s` that are not phi nodes, in order.
pub open spec fn non_phis(s: Seq<InstrV>) -> Seq<InstrV> {
    s.filter(|i: InstrV| !i.is_phi())
}

/// The position of the last terminator of `s`, or the length of `s` when it has none.
pub open spec fn last_term(s: Seq<InstrV>) -> int
    decreases s.len(),
{
    if s.len() == 0 {
        0
    } else if s.last().is_terminator() {
        s.len() - 1
    } else {
        let r = last_term(s.drop_last());
        if r == s.len() - 1 {
            s.len() as int
        } else {
            r
        }
    }
}

/// No instruction of `s` is a terminator.
pub open spec fn no_terminator(s: Seq<InstrV>) -> bool {
    forall|i: int| 0 <= i < s.len() ==> !(#[trigger] s[i]).is_terminator()
}

/// Every instruction of `s` is a copy.
pub open spec fn all_copies(s: Seq<InstrV>) -> bool {
    forall|i: int| 0 <= i < s.len() ==> (#[trigger] s[i]) is Copy
}

/// `s` with `c` inserted just before its last terminator (at its end if it has none).
pub open spec fn insert_before_last_term(s: Seq<InstrV>, c: Seq<InstrV>) -> Seq<InstrV> {
    s.take(last_term(s)) + c + s.skip(last_term(s))
}

/// How many phi nodes `s` holds.
pub open spec fn num_phis(s: Seq<InstrV>) -> nat {
    s.filter(|i: InstrV| i.is_phi()).len()
}

/// A bound on how far lowering the phi nodes of the first `m` blocks advances the counter
/// of fresh registers.
pub open spec fn phi_budget(g: CfgV, m: int) -> nat
    decreases m,
{
    if m <= 0 {
        0
    } else {
        phi_budget(g, m - 1) + g.backward[m - 1].len() * (2 * num_phis(g.blocks[m - 1].instructions) + 1)
    }
}

/// Every phi node has a source for each predecessor of its block.
pub open spec fn phis_have_sources(g: CfgV) -> bool {
    forall|b: int, i: int|
        0 <= b < g.len() && 0 <= i < g.blocks[b].instructions.len() && (#[trigger] g.blocks[b].instructions[i]) is Phi
            ==> g.blocks[b].instructions[i]->Phi_srcs.len() >= g.backward[b].len()
}

/// The registers that [`ControlFlowGraph::get_max_vreg`] looks at in one instruction: the
/// destinations and register operands of phi nodes, copies, operations and calls.
pub open spec fn counted_regs(ins: InstrV) -> Set<usize> {
    match ins {
        InstrV::Phi { vreg, srcs, .. } => Set::new(
            |r: usize| r == vreg || exists|j: int| 0 <= j < srcs.len() && srcs[j] == ValueV::Vreg(r),
        ),
        InstrV::Copy { vreg, val, .. } => Set::new(|r: usize| r == vreg || val == ValueV::Vreg(r)),
        InstrV::Op { vreg, lhs, rhs, .. } => Set::new(
            |r: usize| r == vreg || lhs == ValueV::Vreg(r) || rhs == ValueV::Vreg(r),
        ),
        InstrV::Call { vreg, args, .. } => Set::new(
            |r: usize| r == vreg || exists|j: int| 0 <= j < args.len() && args[j].1 == ValueV::Vreg(r),
        ),
        _ => Set::empty(),
    }
}

/// Whether register `r` is counted somewhere in the graph.
pub open spec fn counted_in(g: CfgV, r: usize) -> bool {
    exists|b: int, i: int|
        0 <= b < g.len() && 0 <= i < g.blocks[b].instructions.len() && #[trigger] counted_regs(
            g.blocks[b].instructions[i],
        ).contains(r)
}

/// `m` is the largest register counted in `g`, or 0 when none is.
pub open spec fn is_max_vreg(g: CfgV, m: usize) -> bool {
    &&& forall|b: int, i: int, r: usize|
        0 <= b < g.len() && 0 <= i < g.blocks[b].instructions.len() && #[trigger] counted_regs(
            g.blocks[b].instructions[i],
        ).contains(r) ==> r <= m
    &&& m == 0 || counted_in(g, m)
}

proof fn lemma_last_term_props(s: Seq<InstrV>)
    ensures
        0 <= last_term(s) <= s.len(),
        last_term(s) == s.len() ==> no_terminator(s),
        last_term(s) < s.len() ==> s[last_term(s)].is_terminator() && no_terminator(s.skip(last_term(s) + 1)),
    decreases s.len(),
{
    if s.len() > 0 && !s.last().is_terminator() {
        lemma_last_term_props(s.drop_last());
        let r = last_term(s.drop_last());
        if r == s.len() - 1 {
            assert forall|i: int| 0 <= i < s.len() implies !(#[trigger] s[i]).is_terminator() by {
                if i < s.len() - 1 {
                    assert(s.drop_last()[i] == s[i]);
                }
            }
        } else {
            assert forall|i: int| 0 <= i < s.skip(r + 1).len() implies !(#[trigger] s.skip(r + 1)[i]).is_terminator() by {
                if i < s.skip(r + 1).len() - 1 {
                    assert(s.skip(r + 1)[i] == s.drop_last().skip(r + 1)[i]);
                }
            }
        }
    }
}

/// `last_term` is determined by its characterization.
proof fn lemma_last_term_unique(s: Seq<InstrV>, p: int)
    requires
        0 <= p <= s.len(),
        p == s.len() ==> no_terminator(s),
        p < s.len() ==> s[p].is_terminator() && no_terminator(s.skip(p + 1)),
    ensures
        last_term(s) == p,
{
    lemma_last_term_props(s);
    let q = last_term(s);
    if q < p {
        if p == s.len() {
            assert(s[q].is_terminator());
        } else {
            assert(s.skip(q + 1)[p - q - 1] == s[p]);
        }
    } else if p < q {
        if q == s.len() {
            assert(s[p].is_terminator());
        } else {
            assert(s.skip(p + 1)[q - p - 1] == s[q]);
        }
    }
}

proof fn lemma_no_terminator_concat(a: Seq<InstrV>, b: Seq<InstrV>)
    requires
        no_terminator(a),
        no_terminator(b),
    ensures
        no_terminator(a + b),
{
    assert forall|i: int| 0 <= i < (a + b).len() implies !(#[trigger] (a + b)[i]).is_terminator() by {
        if i < a.len() {
            assert((a + b)[i] == a[i]);
        } else {
            assert((a + b)[i] == b[i - a.len()]);
        }
    }
}

proof fn lemma_copies_no_terminator(c: Seq<InstrV>)
    requires
        all_copies(c),
    ensures
        no_terminator(c),
{
    assert forall|i: int| 0 <= i < c.len() implies !(#[trigger] c[i]).is_terminator() by {
        assert(c[i] is Copy);
    }
}

/// Inserting more copies at the same place.
proof fn lemma_insert_again(s: Seq<InstrV>, c: Seq<InstrV>, d: Seq<InstrV>)
    requires
        all_copies(c),
    ensures
        last_term(insert_before_last_term(s, c)) == last_term(s) + c.len(),
        insert_before_last_term(insert_before_last_term(s, c), d) == insert_before_last_term(s, c + d),
{
    let lt = last_term(s);
    lemma_last_term_props(s);
    let a = s.take(lt);
    let b = s.skip(lt);
    let cur = insert_before_last_term(s, c);
    lemma_copies_no_terminator(c);
    if lt == s.len() {
        assert(no_terminator(a)) by {
            assert forall|i: int| 0 <= i < a.len() implies !(#[trigger] a[i]).is_terminator() by {
                assert(a[i] == s[i]);
            }
        }
        lemma_no_terminator_concat(a, c);
        assert(b =~= Seq::<InstrV>::empty());
        assert(cur =~= a + c);
        lemma_last_term_unique(cur, (a.len() + c.len()) as int);
    } else {
        assert(cur[(a.len() + c.len()) as int] == s[lt]);
        assert(cur.skip((a.len() + c.len() + 1) as int) =~= s.skip(lt + 1));
        lemma_last_term_unique(cur, (a.len() + c.len()) as int);
    }
    let p = (a.len() + c.len()) as int;
    assert(cur.take(p) =~= a + c);
    assert(cur.skip(p) =~= b);
    assert(insert_before_last_term(cur, d) =~= insert_before_last_term(s, c + d));
}

proof fn lemma_filter_concat(a: Seq<InstrV>, b: Seq<InstrV>)
    ensures
        non_phis(a + b) == non_phis(a) + non_phis(b),
{
    Seq::filter_distributes_over_add(a, b, |i: InstrV| !i.is_phi());
}

proof fn lemma_filter_copies(c: Seq<InstrV>)
    requires
        all_copies(c),
    ensures
        non_phis(c) == c,
    decreases c.len(),
{
    reveal_with_fuel(Seq::filter, 1);
    if c.len() > 0 {
        lemma_filter_copies(c.drop_last());
        assert(c.drop_last().push(c.last()) =~= c);
    }
}

proof fn lemma_filter_no_terminator(s: Seq<InstrV>)
    requires
        no_terminator(s),
    ensures
        no_terminator(non_phis(s)),
{
    let f = non_phis(s);
    assert forall|i: int| 0 <= i < f.len() implies !(#[trigger] f[i]).is_terminator() by {
        assert(f.contains(f[i]));
        s.lemma_filter_contains_rev(|i: InstrV| !i.is_phi(), f[i]);
        let j = choose|j: int| 0 <= j < s.len() && s[j] == f[i];
        assert(!s[j].is_terminator());
    }
}

/// Removing the phi nodes of an instruction list with copies inserted before its last
/// terminator gives its instructions other than phi nodes with the same copies inserted
/// before their last terminator.
proof fn lemma_remove_phis_after_insert(t: Seq<InstrV>, c: Seq<InstrV>)
    requires
        all_copies(c),
    ensures
        non_phis(insert_before_last_term(t, c)) == insert_before_last_term(non_phis(t), c),
{
    let lt = last_term(t);
    lemma_last_term_props(t);
    let a = t.take(lt);
    let b = t.skip(lt);
    assert(t =~= a + b);
    lemma_filter_concat(a, b);
    lemma_filter_concat(a + c, b);
    lemma_filter_concat(a, c);
    lemma_filter_copies(c);
    let fa = non_phis(a);
    let fb = non_phis(b);
    let ft = non_phis(t);
    assert(ft == fa + fb);
    if lt == t.len() {
        assert(b =~= Seq::<InstrV>::empty());
        assert(fb =~= Seq::<InstrV>::empty()) by {
            reveal_with_fuel(Seq::filter, 1);
        }
        assert(no_terminator(a)) by {
            assert forall|i: int| 0 <= i < a.len() implies !(#[trigger] a[i]).is_terminator() by {
                assert(a[i] == t[i]);
            }
        }
        lemma_filter_no_terminator(a);
        assert(ft =~= fa);
        lemma_last_term_unique(ft, fa.len() as int);
    } else {
        let rest = t.skip(lt + 1);
        assert(b =~= seq![t[lt]] + rest);
        lemma_filter_concat(seq![t[lt]], rest);
        assert(non_phis(seq![t[lt]]) =~= seq![t[lt]]) by {
            reveal_with_fuel(Seq::filter, 2);
            assert(seq![t[lt]].drop_last() =~= Seq::<InstrV>::empty());
        }
        lemma_filter_no_terminator(rest);
        assert(fb =~= seq![t[lt]] + non_phis(rest));
        assert(ft[fa.len() as int] == t[lt]);
        assert(ft.skip((fa.len() + 1) as int) =~= non_phis(rest));
        lemma_last_term_unique(ft, fa.len() as int);
    }
    assert(ft.take(fa.len() as int) =~= fa);
    assert(ft.skip(fa.len() as int) =~= fb);
    assert(non_phis(insert_before_last_term(t, c)) =~= insert_before_last_term(ft, c));
}


/// The phi nodes of `s`, in order.
pub open spec fn phi_list(s: Seq<InstrV>) -> Seq<InstrV> {
    s.filter(|i: InstrV| i.is_phi())
}

proof fn lemma_phis_after_insert(t: Seq<InstrV>, c: Seq<InstrV>)
    requires
        all_copies(c),
    ensures
        phi_list(insert_before_last_term(t, c)) == phi_list(t),
{
    let lt = last_term(t);
    lemma_last_term_props(t);
    let a = t.take(lt);
    let b = t.skip(lt);
    assert(t =~= a + b);
    Seq::filter_distributes_over_add(a, b, |i: InstrV| i.is_phi());
    Seq::filter_distributes_over_add(a + c, b, |i: InstrV| i.is_phi());
    Seq::filter_distributes_over_add(a, c, |i: InstrV| i.is_phi());
    assert(phi_list(c) =~= Seq::<InstrV>::empty()) by {
        if phi_list(c).len() > 0 {
            c.lemma_filter_pred(|i: InstrV| i.is_phi(), 0);
            assert(phi_list(c).contains(phi_list(c)[0]));
            c.lemma_filter_contains_rev(|i: InstrV| i.is_phi(), phi_list(c)[0]);
        }
    }
}

/// Without phi nodes, removing them changes nothing.
proof fn lemma_non_phis_identity(s: Seq<InstrV>)
    requires
        phi_list(s).len() == 0,
    ensures
        non_phis(s) == s,
    decreases s.len(),
{
    reveal_with_fuel(Seq::filter, 1);
    if s.len() > 0 {
        if s.last().is_phi() {
            assert(s.contains(s.last()));
            s.lemma_filter_contains(|i: InstrV| i.is_phi(), s.len() - 1);
        }
        assert(phi_list(s.drop_last()).len() == 0) by {
            reveal_with_fuel(Seq::filter, 1);
        }
        lemma_non_phis_identity(s.drop_last());
        assert(s.drop_last().push(s.last()) =~= s);
    }
}

proof fn lemma_budget_mono(g: CfgV, a: int, b: int)
    requires
        a <= b,
    ensures
        phi_budget(g, a) <= phi_budget(g, b),
    decreases b - a,
{
    if a < b {
        lemma_budget_mono(g, a, b - 1);
    }
}

/// The position of the last terminator, or the length when there is none.
fn last_terminator_position(ins: &Vec<Instruction>) -> (p: usize)
    ensures
        p == last_term(view_instrs(ins@)),
{
    let ghost s = view_instrs(ins@);
    let mut k: usize = ins.len();
    while k > 0
        invariant
            k <= ins.len(),
            s == view_instrs(ins@),
            no_terminator(s.skip(k as int)),
        decreases k,
    {
        if ins[k - 1].is_terminator() {
            proof {
                assert(s.skip(k as int) =~= s.skip((k - 1) + 1));
                lemma_last_term_unique(s, (k - 1) as int);
            }
            return k - 1;
        }
        proof {
            assert forall|i: int| 0 <= i < s.skip(k - 1).len() implies !(#[trigger] s.skip(k - 1)[i]).is_terminator() by {
                if i > 0 {
                    assert(s.skip(k - 1)[i] == s.skip(k as int)[i - 1]);
                }
            }
        }
        k = k - 1;
    }
    proof {
        assert(s.skip(0) =~= s);
        lemma_last_term_unique(s, s.len() as int);
    }
    ins.len()
}

/// A copy of the instructions with `copies` inserted just before the last terminator.
fn insert_copies(ins: &Vec<Instruction>, copies: Vec<Instruction>) -> (r: Vec<Instruction>)
    ensures
        view_instrs(r@) == insert_before_last_term(view_instrs(ins@), view_instrs(copies@)),
{
    let ghost s = view_instrs(ins@);
    let pos = last_terminator_position(ins);
    proof {
        lemma_last_term_props(s);
    }
    let mut r: Vec<Instruction> = Vec::new();
    let mut i: usize = 0;
    while i < pos
        invariant
            pos == last_term(s),
            pos <= ins.len(),
            s == view_instrs(ins@),
            i <= pos,
            view_instrs(r@) == s.take(i as int),
        decreases pos - i,
    {
        let x = ins[i].duplicate();
        let ghost prev = r@;
        r.push(x);
        proof {
            assert(x@ == s[i as int]);
            assert(view_instrs(r@) =~= view_instrs(prev).push(x@));
            assert(s.take(i + 1) =~= s.take(i as int).push(s[i as int]));
        }
        i = i + 1;
    }
    let ghost r1 = view_instrs(r@);
    let mut copies = copies;
    let ghost cv = view_instrs(copies@);
    r.append(&mut copies);
    assert(view_instrs(r@) =~= r1 + cv);
    let mut j: usize = pos;
    while j < ins.len()
        invariant
            pos == last_term(s),
            pos <= j <= ins.len(),
            s == view_instrs(ins@),
            view_instrs(r@) == s.take(pos as int) + cv + s.subrange(pos as int, j as int),
        decreases ins.len() - j,
    {
        let x = ins[j].duplicate();
        let ghost prev = r@;
        r.push(x);
        proof {
            assert(x@ == s[j as int]);
            assert(view_instrs(r@) =~= view_instrs(prev).push(x@));
            assert(s.subrange(pos as int, j + 1) =~= s.subrange(pos as int, j as int).push(s[j as int]));
            assert(view_instrs(r@) =~= s.take(pos as int) + cv + s.subrange(pos as int, j + 1));
        }
        j = j + 1;
    }
    assert(s.subrange(pos as int, s.len() as int) =~= s.skip(pos as int));
    r
}

/// The instructions that are not phi nodes.
fn remove_phis(ins: &Vec<Instruction>) -> (r: Vec<Instruction>)
    ensures
        view_instrs(r@) == non_phis(view_instrs(ins@)),
{
    let ghost s = view_instrs(ins@);
    let mut r: Vec<Instruction> = Vec::new();
    let mut i: usize = 0;
    while i < ins.len()
        invariant
            i <= ins.len(),
            s == view_instrs(ins@),
            view_instrs(r@) == non_phis(s.take(i as int)),
        decreases ins.len() - i,
    {
        proof {
            reveal_with_fuel(Seq::filter, 1);
            assert(s.take(i + 1).drop_last() =~= s.take(i as int));
        }
        if !ins[i].is_phi() {
            r.push(ins[i].duplicate());
            assert(view_instrs(r@) =~= non_phis(s.take(i as int)).push(s[i as int]));
        }
        i = i + 1;
    }
    assert(s.take(ins.len() as int) =~= s);
    r
}

/// The phi nodes, in order.
fn collect_phis(ins: &Vec<Instruction>) -> (r: Vec<Instruction>)
    ensures
        view_instrs(r@) == phi_list(view_instrs(ins@)),
        forall|j: int| 0 <= j < r@.len() ==> (#[trigger] r@[j])@ is Phi,
{
    let ghost s = view_instrs(ins@);
    let mut r: Vec<Instruction> = Vec::new();
    let mut i: usize = 0;
    while i < ins.len()
        invariant
            i <= ins.len(),
            s == view_instrs(ins@),
            view_instrs(r@) == phi_list(s.take(i as int)),
            forall|j: int| 0 <= j < r@.len() ==> (#[trigger] r@[j])@ is Phi,
        decreases ins.len() - i,
    {
        proof {
            reveal_with_fuel(Seq::filter, 1);
            assert(s.take(i + 1).drop_last() =~= s.take(i as int));
        }
        if ins[i].is_phi() {
            r.push(ins[i].duplicate());
            assert(view_instrs(r@) =~= phi_list(s.take(i as int)).push(s[i as int]));
        }
        i = i + 1;
    }
    assert(s.take(ins.len() as int) =~= s);
    r
}


/// The moves that the phi nodes `phis` stand for on the edge from the `k`-th predecessor
/// of their block: each phi node's register receives its `k`-th source.
pub open spec fn phi_moves(phis: Seq<InstrV>, k: int) -> Seq<MoveV> {
    phis.map_values(|p: InstrV| MoveV { dst: p->Phi_vreg, src: p->Phi_srcs[k], ty: p->Phi_ty })
}

/// The copies `c` placed on the edge from the `k`-th predecessor of block `d` perform the
/// moves of the phi nodes of `d` for that edge: when the phi nodes write distinct registers
/// and every register involved is below `bound`, running the copies one after the other
/// leaves every register below `bound` as the moves, all made at once, would. A block
/// without phi nodes gets no copies.
pub open spec fn edge_law(g: CfgV, d: int, k: int, c: Seq<InstrV>, bound: usize) -> bool {
    let p = phi_moves(phi_list(g.blocks[d].instructions), k);
    &&& all_copies(c)
    &&& phi_list(g.blocks[d].instructions).len() == 0 ==> c == Seq::<InstrV>::empty()
    &&& distinct_dsts(p) && regs_below(p, bound) ==> forall|st: spec_fn(usize) -> ValueV, r: usize|
        r < bound ==> #[trigger] run_copies(c, st)(r) == moved_value(p, st, r)
}

/// The copies placed on the edge from the `k`-th predecessor of block `d`, with fresh
/// registers taken from `next` on, and the counter after them.
pub open spec fn edge_run(g: CfgV, d: int, k: int, next: int) -> (Seq<InstrV>, int) {
    seq_run(non_self(phi_moves(phi_list(g.blocks[d].instructions), k)), next)
}

/// The counter of fresh registers when lowering reaches the edge from the `k`-th
/// predecessor of block `d`, having started at `n0`: edges are lowered block by block, and
/// in each block predecessor by predecessor.
pub open spec fn counter_at(g: CfgV, d: int, k: int, n0: int) -> int
    decreases d, k,
{
    if d <= 0 && k <= 0 {
        n0
    } else if k <= 0 {
        counter_at(g, d - 1, g.backward[d - 1].len() as int, n0)
    } else {
        edge_run(g, d, k - 1, counter_at(g, d, k - 1, n0)).1
    }
}

proof fn lemma_counter_no_phis(g: CfgV, d: int, k: int, n0: int)
    requires
        0 <= d,
        0 <= k,
        phi_list(g.blocks[d].instructions).len() == 0,
    ensures
        counter_at(g, d, k, n0) == counter_at(g, d, 0, n0),
        forall|kk: int| #![trigger edge_run(g, d, kk, counter_at(g, d, 0, n0))] edge_run(g, d, kk, counter_at(g, d, 0, n0)).0 == Seq::<InstrV>::empty(),
    decreases k,
{
    let pl = phi_list(g.blocks[d].instructions);
    assert forall|kk: int| #![trigger edge_run(g, d, kk, counter_at(g, d, 0, n0))] edge_run(g, d, kk, counter_at(g, d, 0, n0)).0 == Seq::<InstrV>::empty() by {
        assert(phi_moves(pl, kk) =~= Seq::<MoveV>::empty());
        assert(non_self(phi_moves(pl, kk)) =~= Seq::<MoveV>::empty()) by {
            reveal_with_fuel(Seq::filter, 1);
        }
    }
    if k > 0 {
        lemma_counter_no_phis(g, d, k - 1, n0);
        assert(phi_moves(pl, k - 1) =~= Seq::<MoveV>::empty());
        assert(non_self(phi_moves(pl, k - 1)) =~= Seq::<MoveV>::empty()) by {
            reveal_with_fuel(Seq::filter, 1);
        }
    }
}

/// Every copy `c` placed on the edge from the `k`-th predecessor of block `d` writes the
/// register of a phi node of `d` or a temporary register in `[lo, hi)`.
pub open spec fn temps_in(g: CfgV, d: int, k: int, c: Seq<InstrV>, lo: usize, hi: usize) -> bool {
    forall|i: int|
        0 <= i < c.len() ==> writes(phi_moves(phi_list(g.blocks[d].instructions), k), (#[trigger] c[i])->Copy_vreg) || (lo
            <= c[i]->Copy_vreg < hi)
}

proof fn lemma_temps_grow(g: CfgV, d: int, k: int, c: Seq<InstrV>, lo: usize, hi1: usize, hi2: usize)
    requires
        temps_in(g, d, k, c, lo, hi1),
        hi1 <= hi2,
    ensures
        temps_in(g, d, k, c, lo, hi2),
{
}

/// The copies of `row` (one per predecessor of block `d`) placed in block `b`, for the first
/// `k` predecessors of `d`, in order.
pub open spec fn from_row(g: CfgV, row: Seq<Seq<InstrV>>, b: int, d: int, k: int) -> Seq<InstrV>
    decreases k,
{
    if k <= 0 {
        Seq::empty()
    } else {
        from_row(g, row, b, d, k - 1) + if g.backward[d][k - 1].0 == b {
            row[k - 1]
        } else {
            Seq::empty()
        }
    }
}

/// The copies placed in block `b` while lowering the phi nodes of the first `d` blocks, in
/// the order in which they were placed.
pub open spec fn gathered(g: CfgV, segs: Seq<Seq<Seq<InstrV>>>, b: int, d: int) -> Seq<InstrV>
    decreases d,
{
    if d <= 0 {
        Seq::empty()
    } else {
        gathered(g, segs, b, d - 1) + from_row(g, segs[d - 1], b, d - 1, g.backward[d - 1].len() as int)
    }
}

/// `h` is `g` after lowering its phi nodes with the copies `segs` (`segs[d][k]` for the edge
/// from the `k`-th predecessor of block `d`): every block lost its phi nodes and received,
/// before its last terminator, the copies of the edges that leave it.
pub open spec fn lowered(g: CfgV, h: CfgV, segs: Seq<Seq<Seq<InstrV>>>, bound: usize) -> bool {
    &&& segs.len() == g.len()
    &&& forall|d: int| 0 <= d < g.len() ==> (#[trigger] segs[d]).len() == g.backward[d].len()
    &&& forall|d: int, k: int|
        0 <= d < g.len() && 0 <= k < g.backward[d].len() ==> edge_law(g, d, k, #[trigger] segs[d][k], bound)
    &&& forall|b: int|
        0 <= b < g.len() ==> (#[trigger] h.blocks[b]).instructions == insert_before_last_term(
            non_phis(g.blocks[b].instructions),
            gathered(g, segs, b, g.len() as int),
        )
}

proof fn lemma_copies_concat(a: Seq<InstrV>, b: Seq<InstrV>)
    requires
        all_copies(a),
        all_copies(b),
    ensures
        all_copies(a + b),
{
    assert forall|i: int| 0 <= i < (a + b).len() implies (#[trigger] (a + b)[i]) is Copy by {
        if i < a.len() {
            assert((a + b)[i] == a[i]);
        } else {
            assert((a + b)[i] == b[i - a.len()]);
        }
    }
}

proof fn lemma_from_row_copies(g: CfgV, row: Seq<Seq<InstrV>>, b: int, d: int, k: int)
    requires
        forall|kk: int| 0 <= kk < k ==> all_copies(#[trigger] row[kk]),
    ensures
        all_copies(from_row(g, row, b, d, k)),
    decreases k,
{
    if k > 0 {
        lemma_from_row_copies(g, row, b, d, k - 1);
        let e = if g.backward[d][k - 1].0 == b {
            row[k - 1]
        } else {
            Seq::<InstrV>::empty()
        };
        assert(all_copies(e));
        lemma_copies_concat(from_row(g, row, b, d, k - 1), e);
    }
}

proof fn lemma_gathered_copies(g: CfgV, segs: Seq<Seq<Seq<InstrV>>>, b: int, d: int)
    requires
        forall|dd: int, kk: int| 0 <= dd < d && 0 <= kk < g.backward[dd].len() ==> all_copies(#[trigger] segs[dd][kk]),
    ensures
        all_copies(gathered(g, segs, b, d)),
    decreases d,
{
    if d > 0 {
        lemma_gathered_copies(g, segs, b, d - 1);
        let row = segs[d - 1];
        assert forall|kk: int| 0 <= kk < g.backward[d - 1].len() implies all_copies(#[trigger] row[kk]) by {
            assert(all_copies(segs[d - 1][kk]));
        }
        lemma_from_row_copies(g, row, b, d - 1, g.backward[d - 1].len() as int);
        lemma_copies_concat(gathered(g, segs, b, d - 1), from_row(g, row, b, d - 1, g.backward[d - 1].len() as int));
    }
}

proof fn lemma_from_row_push(g: CfgV, row: Seq<Seq<InstrV>>, c: Seq<InstrV>, b: int, d: int, k: int)
    requires
        0 <= k <= row.len(),
    ensures
        from_row(g, row.push(c), b, d, k) == from_row(g, row, b, d, k),
    decreases k,
{
    if k > 0 {
        lemma_from_row_push(g, row, c, b, d, k - 1);
        assert(row.push(c)[k - 1] == row[k - 1]);
    }
}

proof fn lemma_from_row_empty(g: CfgV, row: Seq<Seq<InstrV>>, b: int, d: int, k: int)
    requires
        forall|kk: int| 0 <= kk < k ==> #[trigger] row[kk] == Seq::<InstrV>::empty(),
    ensures
        from_row(g, row, b, d, k) == Seq::<InstrV>::empty(),
    decreases k,
{
    if k > 0 {
        lemma_from_row_empty(g, row, b, d, k - 1);
        assert(row[k - 1] == Seq::<InstrV>::empty());
        assert(from_row(g, row, b, d, k) =~= Seq::<InstrV>::empty());
    }
}

proof fn lemma_gathered_push(g: CfgV, segs: Seq<Seq<Seq<InstrV>>>, row: Seq<Seq<InstrV>>, b: int, d: int)
    requires
        0 <= d <= segs.len(),
    ensures
        gathered(g, segs.push(row), b, d) == gathered(g, segs, b, d),
    decreases d,
{
    if d > 0 {
        lemma_gathered_push(g, segs, row, b, d - 1);
        assert(segs.push(row)[d - 1] == segs[d - 1]);
    }
}

/// Every phi node of a block has a source for each predecessor of the block.
proof fn lemma_phi_list_sources(g: CfgV, d: int)
    requires
        0 <= d < g.len(),
        phis_have_sources(g),
    ensures
        forall|j: int|
            0 <= j < phi_list(g.blocks[d].instructions).len() ==> (#[trigger] phi_list(g.blocks[d].instructions)[j]) is Phi
                && phi_list(g.blocks[d].instructions)[j]->Phi_srcs.len() >= g.backward[d].len(),
{
    let s = g.blocks[d].instructions;
    assert forall|j: int| 0 <= j < phi_list(s).len() implies (#[trigger] phi_list(s)[j]) is Phi
        && phi_list(s)[j]->Phi_srcs.len() >= g.backward[d].len() by {
        s.lemma_filter_pred(|i: InstrV| i.is_phi(), j);
        assert(phi_list(s).contains(phi_list(s)[j]));
        s.lemma_filter_contains_rev(|i: InstrV| i.is_phi(), phi_list(s)[j]);
        let i = choose|i: int| 0 <= i < s.len() && s[i] == phi_list(s)[j];
        assert(g.blocks[d].instructions[i] is Phi);
    }
}

/// After lowering, no block holds a phi node.
pub proof fn lemma_lowered_has_no_phis(g: CfgV, h: CfgV, segs: Seq<Seq<Seq<InstrV>>>, bound: usize)
    requires
        lowered(g, h, segs, bound),
    ensures
        forall|b: int, i: int|
            0 <= b < g.len() && 0 <= i < h.blocks[b].instructions.len() ==> !(#[trigger] h.blocks[b].instructions[i]).is_phi(),
{
    assert forall|b: int, i: int| 0 <= b < g.len() && 0 <= i < h.blocks[b].instructions.len() implies !(
    #[trigger] h.blocks[b].instructions[i]).is_phi() by {
        let s = g.blocks[b].instructions;
        let f = non_phis(s);
        let c = gathered(g, segs, b, g.len() as int);
        assert forall|dd: int, kk: int| 0 <= dd < g.len() && 0 <= kk < g.backward[dd].len() implies all_copies(
            #[trigger] segs[dd][kk],
        ) by {
            assert(edge_law(g, dd, kk, segs[dd][kk], bound));
        }
        lemma_gathered_copies(g, segs, b, g.len() as int);
        lemma_phis_after_insert(f, c);
        assert(phi_list(f) =~= Seq::<InstrV>::empty()) by {
            if phi_list(f).len() > 0 {
                f.lemma_filter_pred(|x: InstrV| x.is_phi(), 0);
                assert(phi_list(f).contains(phi_list(f)[0]));
                f.lemma_filter_contains_rev(|x: InstrV| x.is_phi(), phi_list(f)[0]);
                let j = choose|j: int| 0 <= j < f.len() && f[j] == phi_list(f)[0];
                s.lemma_filter_pred(|x: InstrV| !x.is_phi(), j);
            }
        }
        let hs = h.blocks[b].instructions;
        if hs[i].is_phi() {
            hs.lemma_filter_contains(|x: InstrV| x.is_phi(), i);
        }
    }
}

/// Every register that the phi nodes of a block write or read is at most the largest
/// register counted in the graph.
proof fn lemma_phi_moves_below(g: CfgV, m: usize, d: int, k: int)
    requires
        0 <= d < g.len(),
        0 <= k < g.backward[d].len(),
        phis_have_sources(g),
        is_max_vreg(g, m),
        m < usize::MAX,
    ensures
        regs_below(phi_moves(phi_list(g.blocks[d].instructions), k), (m + 1) as usize),
{
    let s = g.blocks[d].instructions;
    let p = phi_moves(phi_list(s), k);
    lemma_phi_list_sources(g, d);
    assert forall|j: int| 0 <= j < p.len() implies (#[trigger] p[j]).dst < (m + 1) as usize && (p[j].src matches ValueV::Vreg(x) ==> x < (m + 1) as usize) by {
        let ph = phi_list(s)[j];
        assert(ph is Phi);
        assert(phi_list(s).contains(ph));
        s.lemma_filter_contains_rev(|i: InstrV| i.is_phi(), ph);
        let i = choose|i: int| 0 <= i < s.len() && s[i] == ph;
        assert(counted_regs(g.blocks[d].instructions[i]).contains(ph->Phi_vreg));
        if let ValueV::Vreg(x) = ph->Phi_srcs[k] {
            assert(counted_regs(g.blocks[d].instructions[i]).contains(x));
        }
    }
}

/// Lowering with temporaries taken above the largest register keeps the moves of every
/// edge: where the phi nodes of a block write distinct registers, the copies on the edge
/// from its `k`-th predecessor leave every register up to that largest one as the moves,
/// all made at once, would.
pub proof fn lemma_lowered_moves(g: CfgV, h: CfgV, segs: Seq<Seq<Seq<InstrV>>>, m: usize)
    requires
        lowered(g, h, segs, (m + 1) as usize),
        phis_have_sources(g),
        is_max_vreg(g, m),
        m < usize::MAX,
    ensures
        forall|d: int, k: int, st: spec_fn(usize) -> ValueV, r: usize|
            0 <= d < g.len() && 0 <= k < g.backward[d].len() && distinct_dsts(phi_moves(phi_list(g.blocks[d].instructions), k))
                && r <= m ==> #[trigger] run_copies(segs[d][k], st)(r) == moved_value(
                phi_moves(phi_list(g.blocks[d].instructions), k),
                st,
                r,
            ),
{
    assert forall|d: int, k: int, st: spec_fn(usize) -> ValueV, r: usize|
        0 <= d < g.len() && 0 <= k < g.backward[d].len() && distinct_dsts(phi_moves(phi_list(g.blocks[d].instructions), k))
            && r <= m implies #[trigger] run_copies(segs[d][k], st)(r) == moved_value(
            phi_moves(phi_list(g.blocks[d].instructions), k),
            st,
            r,
        ) by {
        lemma_phi_moves_below(g, m, d, k);
        assert(edge_law(g, d, k, segs[d][k], (m + 1) as usize));
    }
}


/// Every move of `p` has the destination and the type of some move of `orig`.
pub open spec fn moves_within(p: Seq<MoveV>, orig: Seq<MoveV>) -> bool {
    forall|i: int|
        0 <= i < p.len() ==> exists|j: int|
            0 <= j < orig.len() && (#[trigger] p[i]).dst == (#[trigger] orig[j]).dst && p[i].ty == orig[j].ty
}

/// Every copy of `c` carries the type of some move of `orig` and writes the destination of
/// that move or a register from `next` on.
pub open spec fn copies_typed_by(c: Seq<InstrV>, orig: Seq<MoveV>, next: int) -> bool {
    forall|i: int|
        0 <= i < c.len() ==> (#[trigger] c[i]) is Copy && exists|j: int|
            0 <= j < orig.len() && c[i]->Copy_ty == (#[trigger] orig[j]).ty && (c[i]->Copy_vreg == orig[j].dst
                || next <= c[i]->Copy_vreg)
}

/// Moves removed from a sequence keep the destinations and types of `orig`.
proof fn lemma_moves_within_remove(p: Seq<MoveV>, orig: Seq<MoveV>, k: int)
    requires
        moves_within(p, orig),
        0 <= k < p.len(),
    ensures
        moves_within(p.remove(k), orig),
{
    let r = p.remove(k);
    assert forall|i: int| 0 <= i < r.len() implies exists|j: int|
        0 <= j < orig.len() && (#[trigger] r[i]).dst == (#[trigger] orig[j]).dst && r[i].ty == orig[j].ty by {
        let i0 = if i < k { i } else { i + 1 };
        assert(r[i] == p[i0]);
        let j = choose|j: int| 0 <= j < orig.len() && p[i0].dst == (#[trigger] orig[j]).dst && p[i0].ty == orig[j].ty;
        assert(r[i].dst == orig[j].dst && r[i].ty == orig[j].ty);
    }
}

/// Turning the pending moves `p` into copies keeps the types: each copy carries the type of a
/// move of `orig` (which every pending move comes from) and writes the destination of that
/// move or a fresh register from `next` on.
pub proof fn lemma_seq_run_types(p: Seq<MoveV>, orig: Seq<MoveV>, next: int)
    requires
        moves_within(p, orig),
    ensures
        copies_typed_by(seq_run(p, next).0, orig, next),
    decreases p.len(), step_credit(p, next),
{
    if p.len() == 0 || next < 0 || next > usize::MAX {
        assert(seq_run(p, next).0 =~= Seq::<InstrV>::empty());
    } else {
        lemma_step_decreases(p, next);
        lemma_first_ready_from(p, 0);
        let st = seq_step(p, next);
        match first_ready_from(p, 0) {
            Some(k) => {
                lemma_moves_within_remove(p, orig, k);
            },
            None => {
                let d = p[0].dst;
                let q = redirect(p, d, next as usize);
                assert forall|i: int| 0 <= i < q.len() implies exists|j: int|
                    0 <= j < orig.len() && (#[trigger] q[i]).dst == (#[trigger] orig[j]).dst && q[i].ty == orig[j].ty by {
                    assert(q[i].dst == p[i].dst && q[i].ty == p[i].ty);
                }
                assert(moves_within(q, orig));
                if ready(q, 0) {
                    lemma_moves_within_remove(q, orig, 0);
                }
            },
        }
        assert(moves_within(st.1, orig));
        lemma_seq_run_types(st.1, orig, st.2);
        let rest = seq_run(st.1, st.2);
        assert(seq_run(p, next).0 == st.0 + rest.0);
        assert(copies_typed_by(st.0, orig, next)) by {
            match first_ready_from(p, 0) {
                Some(k) => {
                    assert(st.0[0] == copy_of(p[k]));
                },
                None => {
                    let d = p[0].dst;
                    let q = redirect(p, d, next as usize);
                    assert(q[0].dst == p[0].dst && q[0].ty == p[0].ty);
                },
            }
        }
        assert(copies_typed_by(st.0 + rest.0, orig, next)) by {
            assert forall|i: int| 0 <= i < (st.0 + rest.0).len() implies (#[trigger] (st.0 + rest.0)[i]) is Copy
                && exists|j: int|
                0 <= j < orig.len() && (st.0 + rest.0)[i]->Copy_ty == (#[trigger] orig[j]).ty && ((st.0
                    + rest.0)[i]->Copy_vreg == orig[j].dst || next <= (st.0 + rest.0)[i]->Copy_vreg) by {
                if i < st.0.len() {
                    assert((st.0 + rest.0)[i] == st.0[i]);
                } else {
                    assert((st.0 + rest.0)[i] == rest.0[i - st.0.len()]);
                    assert(next <= st.2);
                }
            }
        }
    }
}

/// Every copy placed on the edge from the `k`-th predecessor of block `d` carries the type of a
/// phi node of `d`, and writes that phi node's register or a temporary register from `next`
/// (the counter when lowering reaches the edge) on: a phi node's register receives values of
/// the phi node's own type.
pub proof fn lemma_edge_copy_types(g: CfgV, d: int, k: int, next: int)
    ensures
        forall|i: int|
            0 <= i < edge_run(g, d, k, next).0.len() ==> {
                let c = #[trigger] edge_run(g, d, k, next).0[i];
                let pl = phi_list(g.blocks[d].instructions);
                &&& c is Copy
                &&& exists|j: int|
                    0 <= j < pl.len() && c->Copy_ty == (#[trigger] pl[j])->Phi_ty && (c->Copy_vreg == pl[j]->Phi_vreg
                        || next <= c->Copy_vreg)
            },
{
    let pl = phi_list(g.blocks[d].instructions);
    let pm = phi_moves(pl, k);
    let ns = non_self(pm);
    assert forall|i: int| 0 <= i < ns.len() implies exists|j: int|
        0 <= j < pm.len() && (#[trigger] ns[i]).dst == (#[trigger] pm[j]).dst && ns[i].ty == pm[j].ty by {
        pm.lemma_filter_contains_rev(|m: MoveV| !is_self_move(m), ns[i]);
        assert(ns.contains(ns[i]));
        let j = choose|j: int| 0 <= j < pm.len() && pm[j] == ns[i];
        assert(pm[j] == ns[i]);
    }
    lemma_seq_run_types(ns, pm, next);
    let c = edge_run(g, d, k, next).0;
    assert forall|i: int| 0 <= i < c.len() implies (#[trigger] c[i]) is Copy && exists|j: int|
        0 <= j < pl.len() && c[i]->Copy_ty == (#[trigger] pl[j])->Phi_ty && (c[i]->Copy_vreg == pl[j]->Phi_vreg
            || next <= c[i]->Copy_vreg) by {
        let j = choose|j: int|
            0 <= j < pm.len() && c[i]->Copy_ty == (#[trigger] pm[j]).ty && (c[i]->Copy_vreg == pm[j].dst || next
                <= c[i]->Copy_vreg);
        assert(pm[j].ty == pl[j]->Phi_ty && pm[j].dst == pl[j]->Phi_vreg);
    }
}

/// The moves that the phi nodes `phis` stand for on the edge from the `k`-th predecessor.
fn edge_moves(phis: &Vec<Instruction>, k: usize) -> (moves: Vec<Move>)
    requires
        forall|j: int|
            0 <= j < phis@.len() ==> (#[trigger] phis@[j])@ is Phi && k < phis@[j]@->Phi_srcs.len(),
    ensures
        view_moves(moves@) == phi_moves(view_instrs(phis@), k as int),
        moves@.len() == phis@.len(),
        forall|j: int|
            0 <= j < moves@.len() ==> (#[trigger] moves@[j]).dst == phis@[j]@->Phi_vreg && moves@[j].src@
                == phis@[j]@->Phi_srcs[k as int] && moves@[j].ty == phis@[j]@->Phi_ty,
{
    let mut moves: Vec<Move> = Vec::new();
    let mut j: usize = 0;
    while j < phis.len()
        invariant
            j <= phis.len(),
            forall|jj: int|
                0 <= jj < phis@.len() ==> (#[trigger] phis@[jj])@ is Phi && k < phis@[jj]@->Phi_srcs.len(),
            view_moves(moves@) == phi_moves(view_instrs(phis@.take(j as int)), k as int),
        decreases phis.len() - j,
    {
        proof {
            assert(phis@[j as int]@ is Phi);
        }
        match &phis[j] {
            Instruction::Phi { vreg, srcs, ty } => {
                proof {
                    assert(srcs@.map_values(|v: Value| view_value(v)) == phis@[j as int]@->Phi_srcs);
                    assert(srcs@.map_values(|v: Value| view_value(v))[k as int] == srcs@[k as int]@);
                }
                let m = Move { dst: *vreg, src: srcs[k].duplicate(), ty: *ty };
                let ghost prev = moves@;
                moves.push(m);
                proof {
                    assert(view_moves(moves@) =~= view_moves(prev).push(m@));
                    assert(view_instrs(phis@.take(j + 1)) =~= view_instrs(phis@.take(j as int)).push(phis@[j as int]@));
                    assert(phi_moves(view_instrs(phis@.take(j + 1)), k as int) =~= phi_moves(
                        view_instrs(phis@.take(j as int)),
                        k as int,
                    ).push(m@));
                }
            },
            _ => {},
        }
        j = j + 1;
    }
    assert(phis@.take(phis.len() as int) =~= phis@);
    proof {
        assert forall|j: int| 0 <= j < moves@.len() implies (#[trigger] moves@[j]).dst == phis@[j]@->Phi_vreg
            && moves@[j].src@ == phis@[j]@->Phi_srcs[k as int] && moves@[j].ty == phis@[j]@->Phi_ty by {
            assert(view_moves(moves@)[j] == moves@[j]@);
            assert(view_instrs(phis@)[j] == phis@[j]@);
        }
    }
    moves
}

impl ControlFlowGraph {
    /// Leaves SSA form: for every block with phi nodes and every predecessor of it, the
    /// copies that the phi nodes stand for on that edge are placed in the predecessor just
    /// before its last terminator (see [`sequentialize_parallel_moves`]); then the phi nodes
    /// are removed. Temporary registers are taken from `next_vreg` on: each copy writes the
    /// register of a phi node or one of the registers that the counter passed over. The
    /// copies of each edge are exactly those of [`sequentialize_parallel_moves`] for its
    /// moves, with the counter as the edges before it left it ([`edge_run`], [`counter_at`]).
    pub fn lower_phis_to_moves(&mut self, next_vreg: &mut usize)
        requires
            old(self)@.wf(),
            phis_have_sources(old(self)@),
            *old(next_vreg) + phi_budget(old(self)@, old(self)@.len() as int) <= usize::MAX,
        ensures
            final(self)@.wf(),
            final(self)@.len() == old(self)@.len(),
            final(self)@.forward == old(self)@.forward,
            final(self)@.backward == old(self)@.backward,
            *old(next_vreg) <= *final(next_vreg) <= *old(next_vreg) + phi_budget(old(self)@, old(self)@.len() as int),
            exists|segs: Seq<Seq<Seq<InstrV>>>|
                lowered(old(self)@, final(self)@, segs, *old(next_vreg)) && forall|d: int, k: int|
                    0 <= d < old(self)@.len() && 0 <= k < old(self)@.backward[d].len() ==> temps_in(
                        old(self)@,
                        d,
                        k,
                        #[trigger] segs[d][k],
                        *old(next_vreg),
                        *final(next_vreg),
                    ) && segs[d][k] == edge_run(old(self)@, d, k, counter_at(old(self)@, d, k, *old(next_vreg) as int)).0,
            *final(next_vreg) == counter_at(old(self)@, old(self)@.len() as int, 0, *old(next_vreg) as int),
    {
        let ghost g = self@;
        let ghost n0 = *next_vreg;
        let ghost n = g.len() as int;
        let ghost mut segs: Seq<Seq<Seq<InstrV>>> = Seq::empty();
        let num_blocks = self.blocks.len();
        proof {
            assert forall|b: int| 0 <= b < n implies (#[trigger] self@.blocks[b]).instructions == insert_before_last_term(
                g.blocks[b].instructions,
                gathered(g, segs, b, 0),
            ) by {
                let s = g.blocks[b].instructions;
                lemma_last_term_props(s);
                assert(insert_before_last_term(s, Seq::empty()) =~= s);
            }
        }
        let mut d: usize = 0;
        while d < num_blocks
            invariant
                num_blocks == g.len(),
                g.wf(),
                phis_have_sources(g),
                n0 + phi_budget(g, n) <= usize::MAX,
                n == g.len(),
                0 <= d <= num_blocks,
                self@.wf(),
                self@.len() == g.len(),
                self@.forward == g.forward,
                self@.backward == g.backward,
                n0 <= *next_vreg <= n0 + phi_budget(g, d as int),
                segs.len() == d,
                forall|dd: int| 0 <= dd < d ==> (#[trigger] segs[dd]).len() == g.backward[dd].len(),
                forall|dd: int, kk: int|
                    0 <= dd < d && 0 <= kk < g.backward[dd].len() ==> edge_law(g, dd, kk, #[trigger] segs[dd][kk], n0),
                forall|dd: int, kk: int|
                    0 <= dd < d && 0 <= kk < g.backward[dd].len() ==> temps_in(g, dd, kk, #[trigger] segs[dd][kk], n0, *next_vreg),
                forall|dd: int, kk: int|
                    0 <= dd < d && 0 <= kk < g.backward[dd].len() ==> #[trigger] segs[dd][kk] == edge_run(g, dd, kk, counter_at(g, dd, kk, n0 as int)).0,
                *next_vreg == counter_at(g, d as int, 0, n0 as int),
                forall|b: int|
                    0 <= b < n ==> (#[trigger] self@.blocks[b]).instructions == insert_before_last_term(
                        if b < d {
                            non_phis(g.blocks[b].instructions)
                        } else {
                            g.blocks[b].instructions
                        },
                        gathered(g, segs, b, d as int),
                    ),
            decreases num_blocks - d,
        {
            proof {
                lemma_budget_mono(g, d + 1, n);
                lemma_gathered_copies(g, segs, d as int, d as int);
                lemma_phis_after_insert(g.blocks[d as int].instructions, gathered(g, segs, d as int, d as int));
                lemma_phi_list_sources(g, d as int);
                assert(self@.blocks[d as int].instructions == view_instrs(self.blocks@[d as int].instructions@));
            }
            let phis = collect_phis(&self.blocks[d].instructions);
            let ghost pl = phi_list(g.blocks[d as int].instructions);
            assert(view_instrs(phis@) == pl);
            let num_preds = self.backward_edges[d].len();
            let ghost mut row: Seq<Seq<InstrV>> = Seq::empty();
            if phis.len() == 0 {
                proof {
                    row = Seq::new(num_preds as nat, |kk: int| Seq::<InstrV>::empty());
                    assert forall|b: int| 0 <= b < n implies from_row(g, row, b, d as int, num_preds as int) == Seq::<
                        InstrV,
                    >::empty() by {
                        lemma_from_row_empty(g, row, b, d as int, num_preds as int);
                    }
                    lemma_non_phis_identity(g.blocks[d as int].instructions);
                }
            } else {
                let ghost np = phis.len() as int;
                proof {
                    assert forall|j: int| 0 <= j < phis@.len() implies (#[trigger] phis@[j])@ is Phi && num_preds
                        <= phis@[j]@->Phi_srcs.len() by {
                        assert(phis@[j]@ == pl[j]);
                    }
                    assert(num_phis(g.blocks[d as int].instructions) == np);
                }
                let mut k: usize = 0;
                while k < num_preds
                    invariant
                        num_blocks == g.len(),
                        g.wf(),
                        n == g.len(),
                        d < num_blocks,
                        num_preds == g.backward[d as int].len(),
                        view_instrs(phis@) == pl,
                        pl == phi_list(g.blocks[d as int].instructions),
                        np == phis@.len(),
                        np > 0,
                        np == num_phis(g.blocks[d as int].instructions),
                        forall|j: int|
                            0 <= j < phis@.len() ==> (#[trigger] phis@[j])@ is Phi && num_preds <= phis@[j]@->Phi_srcs.len(),
                        n0 + phi_budget(g, d + 1) <= usize::MAX,
                        phi_budget(g, d + 1) == phi_budget(g, d as int) + num_preds * (2 * np + 1),
                        self@.wf(),
                        self@.len() == g.len(),
                        self@.forward == g.forward,
                        self@.backward == g.backward,
                        0 <= k <= num_preds,
                        n0 <= *next_vreg <= n0 + phi_budget(g, d as int) + k * (2 * np + 1),
                        segs.len() == d,
                        forall|dd: int, kk: int|
                            0 <= dd < d && 0 <= kk < g.backward[dd].len() ==> edge_law(g, dd, kk, #[trigger] segs[dd][kk], n0),
                        row.len() == k,
                        forall|kk: int| 0 <= kk < k ==> edge_law(g, d as int, kk, #[trigger] row[kk], n0),
                        forall|dd: int, kk: int|
                            0 <= dd < d && 0 <= kk < g.backward[dd].len() ==> temps_in(g, dd, kk, #[trigger] segs[dd][kk], n0, *next_vreg),
                        forall|kk: int| 0 <= kk < k ==> temps_in(g, d as int, kk, #[trigger] row[kk], n0, *next_vreg),
                        forall|dd: int, kk: int|
                            0 <= dd < d && 0 <= kk < g.backward[dd].len() ==> #[trigger] segs[dd][kk] == edge_run(g, dd, kk, counter_at(g, dd, kk, n0 as int)).0,
                        forall|kk: int| 0 <= kk < k ==> #[trigger] row[kk] == edge_run(g, d as int, kk, counter_at(g, d as int, kk, n0 as int)).0,
                        *next_vreg == counter_at(g, d as int, k as int, n0 as int),
                        forall|b: int|
                            0 <= b < n ==> (#[trigger] self@.blocks[b]).instructions == insert_before_last_term(
                                if b < d {
                                    non_phis(g.blocks[b].instructions)
                                } else {
                                    g.blocks[b].instructions
                                },
                                gathered(g, segs, b, d as int) + from_row(g, row, b, d as int, k as int),
                            ),
                    decreases num_preds - k,
                {
                    let pred = self.backward_edges[d][k];
                    let p = pred.0;
                    proof {
                        assert(p < n);
                        assert((k + 1) * (2 * np + 1) <= num_preds * (2 * np + 1)) by (nonlinear_arith)
                            requires
                                k + 1 <= num_preds,
                                np >= 0,
                        ;
                        assert((k + 1) * (2 * np + 1) == k * (2 * np + 1) + 2 * np + 1) by (nonlinear_arith);
                    }
                    let moves = edge_moves(&phis, k);
                    let ghost pm = phi_moves(pl, k as int);
                    let ghost nb = *next_vreg;
                    proof {
                        assert(view_moves(moves@).len() == moves@.len());
                        assert(moves@.len() == np);
                        assert(nb + 2 * np + 1 <= n0 + phi_budget(g, d as int) + (k + 1) * (2 * np + 1));
                    }
                    let copies = sequentialize_parallel_moves(moves, next_vreg);
                    let ghost c = view_instrs(copies@);
                    proof {
                        assert(c == edge_run(g, d as int, k as int, counter_at(g, d as int, k as int, n0 as int)).0);
                        assert(*next_vreg == counter_at(g, d as int, k + 1, n0 as int));
                        assert(all_copies(c)) by {
                            assert forall|i: int| 0 <= i < c.len() implies (#[trigger] c[i]) is Copy by {
                                assert(c[i] == copies@[i]@);
                            }
                        }
                        if distinct_dsts(pm) && regs_below(pm, n0) {
                            assert(regs_below(pm, nb)) by {
                                assert forall|i: int| 0 <= i < pm.len() implies (#[trigger] pm[i]).dst < nb && (
                                pm[i].src matches ValueV::Vreg(s) ==> s < nb) by {
                                    assert(pm[i].dst < n0);
                                }
                            }
                            assert forall|st: spec_fn(usize) -> ValueV, r: usize| r < n0 implies #[trigger] run_copies(
                                c,
                                st,
                            )(r) == moved_value(pm, st, r) by {
                                assert(run_copies(view_instrs(copies@), st)(r) == moved_value(view_moves(moves@), st, r));
                            }
                        }
                        assert(edge_law(g, d as int, k as int, c, n0));
                        assert forall|i: int| 0 <= i < c.len() implies writes(pm, (#[trigger] c[i])->Copy_vreg) || (n0
                            <= c[i]->Copy_vreg < *next_vreg) by {
                            assert(c[i] == copies@[i]@);
                        }
                        assert(temps_in(g, d as int, k as int, c, n0, *next_vreg));
                        assert forall|dd: int, kk: int|
                            0 <= dd < d && 0 <= kk < g.backward[dd].len() implies temps_in(g, dd, kk, #[trigger] segs[dd][kk], n0, *next_vreg) by {
                            lemma_temps_grow(g, dd, kk, segs[dd][kk], n0, nb, *next_vreg);
                        }
                        assert forall|kk: int| 0 <= kk < k implies temps_in(g, d as int, kk, #[trigger] row[kk], n0, *next_vreg) by {
                            lemma_temps_grow(g, d as int, kk, row[kk], n0, nb, *next_vreg);
                        }
                    }
                    let ghost t_p = if p < d {
                        non_phis(g.blocks[p as int].instructions)
                    } else {
                        g.blocks[p as int].instructions
                    };
                    let ghost before = gathered(g, segs, p as int, d as int) + from_row(g, row, p as int, d as int, k as int);
                    proof {
                        lemma_gathered_copies(g, segs, p as int, d as int);
                        lemma_from_row_copies(g, row, p as int, d as int, k as int);
                        lemma_copies_concat(gathered(g, segs, p as int, d as int), from_row(g, row, p as int, d as int, k as int));
                        lemma_insert_again(t_p, before, c);
                        assert(self@.blocks[p as int].instructions == view_instrs(self.blocks@[p as int].instructions@));
                    }
                    let new_ins = insert_copies(&self.blocks[p].instructions, copies);
                    let ghost old_self = self@;
                    self.blocks[p].instructions = new_ins;
                    proof {
                        assert forall|b: int| 0 <= b < n implies (#[trigger] self@.blocks[b]).id == old_self.blocks[b].id by {
                            if b != p {
                                assert(self@.blocks[b] == old_self.blocks[b]);
                            }
                        }
                        let row2 = row.push(c);
                        assert forall|b: int| 0 <= b < n implies (#[trigger] self@.blocks[b]).instructions
                            == insert_before_last_term(
                            if b < d {
                                non_phis(g.blocks[b].instructions)
                            } else {
                                g.blocks[b].instructions
                            },
                            gathered(g, segs, b, d as int) + from_row(g, row2, b, d as int, k + 1),
                        ) by {
                            lemma_from_row_push(g, row, c, b, d as int, k as int);
                            assert(row2[k as int] == c);
                            if b == p {
                                assert(from_row(g, row2, b, d as int, k + 1) == from_row(g, row, b, d as int, k as int) + c);
                                assert(before + c =~= gathered(g, segs, b, d as int) + from_row(g, row2, b, d as int, k + 1));
                            } else {
                                assert(self@.blocks[b] == old_self.blocks[b]);
                                assert(from_row(g, row2, b, d as int, k + 1) =~= from_row(g, row, b, d as int, k as int));
                            }
                        }
                        assert forall|kk: int| 0 <= kk < k + 1 implies temps_in(g, d as int, kk, #[trigger] row2[kk], n0, *next_vreg) by {
                            if kk < k {
                                assert(row2[kk] == row[kk]);
                            }
                        }
                        assert forall|kk: int| 0 <= kk < k + 1 implies #[trigger] row2[kk] == edge_run(
                            g,
                            d as int,
                            kk,
                            counter_at(g, d as int, kk, n0 as int),
                        ).0 by {
                            if kk < k {
                                assert(row2[kk] == row[kk]);
                            }
                        }
                        row = row2;
                    }
                    k = k + 1;
                }
                proof {
                    lemma_gathered_copies(g, segs, d as int, d as int);
                    lemma_from_row_copies(g, row, d as int, d as int, num_preds as int);
                    lemma_copies_concat(gathered(g, segs, d as int, d as int), from_row(g, row, d as int, d as int, num_preds as int));
                    lemma_remove_phis_after_insert(
                        g.blocks[d as int].instructions,
                        gathered(g, segs, d as int, d as int) + from_row(g, row, d as int, d as int, num_preds as int),
                    );
                    assert(self@.blocks[d as int].instructions == view_instrs(self.blocks@[d as int].instructions@));
                }
                let new_ins = remove_phis(&self.blocks[d].instructions);
                let ghost old_self = self@;
                self.blocks[d].instructions = new_ins;
                proof {
                    assert forall|b: int| 0 <= b < n implies (#[trigger] self@.blocks[b]).id == old_self.blocks[b].id && (b
                        != d ==> self@.blocks[b] == old_self.blocks[b]) by {
                        if b != d {
                            assert(self@.blocks[b] == old_self.blocks[b]);
                        }
                    }
                }
            }
            proof {
                let segs2 = segs.push(row);
                assert forall|b: int| 0 <= b < n implies (#[trigger] self@.blocks[b]).instructions == insert_before_last_term(
                    if b < d + 1 {
                        non_phis(g.blocks[b].instructions)
                    } else {
                        g.blocks[b].instructions
                    },
                    gathered(g, segs2, b, d + 1),
                ) by {
                    lemma_gathered_push(g, segs, row, b, d as int);
                    assert(segs2[d as int] == row);
                    assert(gathered(g, segs2, b, d + 1) == gathered(g, segs, b, d as int) + from_row(
                        g,
                        row,
                        b,
                        d as int,
                        num_preds as int,
                    ));
                    if phis.len() == 0 {
                        assert(gathered(g, segs2, b, d + 1) =~= gathered(g, segs, b, d as int));
                    }
                }
                if phis.len() == 0 {
                    lemma_counter_no_phis(g, d as int, num_preds as int, n0 as int);
                    assert forall|kk: int| 0 <= kk < num_preds implies #[trigger] row[kk] == edge_run(
                        g,
                        d as int,
                        kk,
                        counter_at(g, d as int, kk, n0 as int),
                    ).0 by {
                        lemma_counter_no_phis(g, d as int, kk, n0 as int);
                    }
                }
                assert(*next_vreg == counter_at(g, d + 1, 0, n0 as int));
                assert forall|dd: int, kk: int|
                    0 <= dd < d + 1 && 0 <= kk < g.backward[dd].len() implies #[trigger] segs2[dd][kk] == edge_run(
                    g,
                    dd,
                    kk,
                    counter_at(g, dd, kk, n0 as int),
                ).0 by {
                    if dd < d {
                        assert(segs2[dd] == segs[dd]);
                    } else {
                        assert(segs2[dd] == row);
                    }
                }
                assert forall|dd: int, kk: int|
                    0 <= dd < d + 1 && 0 <= kk < g.backward[dd].len() implies temps_in(g, dd, kk, #[trigger] segs2[dd][kk], n0, *next_vreg) by {
                    if dd < d {
                        assert(segs2[dd] == segs[dd]);
                    } else {
                        assert(segs2[dd] == row);
                        if phis.len() == 0 {
                            assert(row[kk] == Seq::<InstrV>::empty());
                        }
                    }
                }
                segs = segs2;
            }
            d = d + 1;
        }
        proof {
            assert(lowered(g, self@, segs, n0));
        }
    }

    /// The largest register that a phi node, copy, operation or call of the graph writes or
    /// reads, or 0 when there is none.
    pub fn get_max_vreg(&self) -> (max: usize)
        ensures
            is_max_vreg(self@, max),
    {
        let ghost g = self@;
        let mut max: usize = 0;
        let mut b: usize = 0;
        while b < self.blocks.len()
            invariant
                g == self@,
                b <= self.blocks.len(),
                g.blocks.len() == self.blocks.len(),
                forall|bb: int, i: int, r: usize|
                    0 <= bb < b && 0 <= i < g.blocks[bb].instructions.len() && #[trigger] counted_regs(
                        g.blocks[bb].instructions[i],
                    ).contains(r) ==> r <= max,
                max == 0 || counted_in(g, max),
            decreases self.blocks.len() - b,
        {
            let ins = &self.blocks[b].instructions;
            proof {
                assert(g.blocks[b as int].instructions == view_instrs(ins@));
            }
            let mut i: usize = 0;
            while i < ins.len()
                invariant
                    g == self@,
                    b < self.blocks.len(),
                    g.blocks.len() == self.blocks.len(),
                    g.blocks[b as int].instructions == view_instrs(ins@),
                    i <= ins.len(),
                    forall|bb: int, ii: int, r: usize|
                        ((0 <= bb < b && 0 <= ii < g.blocks[bb].instructions.len()) || (bb == b && 0 <= ii < i))
                            && #[trigger] counted_regs(g.blocks[bb].instructions[ii]).contains(r) ==> r <= max,
                    max == 0 || counted_in(g, max),
                decreases ins.len() - i,
            {
                let ghost old_max = max;
                let ghost iv = g.blocks[b as int].instructions[i as int];
                proof {
                    assert(iv == ins@[i as int]@);
                }
                match &ins[i] {
                    Instruction::Phi { vreg, srcs, .. } => {
                        if *vreg > max {
                            max = *vreg;
                        }
                        let mut j: usize = 0;
                        while j < srcs.len()
                            invariant
                                j <= srcs.len(),
                                iv is Phi,
                                iv->Phi_srcs == srcs@.map_values(|v: Value| view_value(v)),
                                max >= old_max,
                                max >= iv->Phi_vreg,
                                forall|jj: int, r: usize| 0 <= jj < j && iv->Phi_srcs[jj] == ValueV::Vreg(r) ==> r <= max,
                                max == old_max || counted_regs(iv).contains(max),
                            decreases srcs.len() - j,
                        {
                            if let Value::Vreg(id) = &srcs[j] {
                                if *id > max {
                                    max = *id;
                                }
                            }
                            proof {
                                assert(iv->Phi_srcs[j as int] == srcs@[j as int]@);
                            }
                            j = j + 1;
                        }
                    },
                    Instruction::Copy { vreg, val, .. } => {
                        if *vreg > max {
                            max = *vreg;
                        }
                        if let Value::Vreg(id) = val {
                            if *id > max {
                                max = *id;
                            }
                        }
                    },
                    Instruction::Op { vreg, lhs, rhs, .. } => {
                        if *vreg > max {
                            max = *vreg;
                        }
                        if let Value::Vreg(id) = lhs {
                            if *id > max {
                                max = *id;
                            }
                        }
                        if let Value::Vreg(id) = rhs {
                            if *id > max {
                                max = *id;
                            }
                        }
                    },
                    Instruction::Call { vreg, args, .. } => {
                        if *vreg > max {
                            max = *vreg;
                        }
                        let mut j: usize = 0;
                        while j < args.len()
                            invariant
                                j <= args.len(),
                                iv is Call,
                                iv->Call_args == args@.map_values(|a: (Type, Value)| crate::module::instruction::view_arg(a)),
                                max >= old_max,
                                max >= iv->Call_vreg,
                                forall|jj: int, r: usize| 0 <= jj < j && iv->Call_args[jj].1 == ValueV::Vreg(r) ==> r <= max,
                                max == old_max || counted_regs(iv).contains(max),
                            decreases args.len() - j,
                        {
                            if let Value::Vreg(id) = &args[j].1 {
                                if *id > max {
                                    max = *id;
                                }
                            }
                            proof {
                                assert(iv->Call_args[j as int].1 == args@[j as int].1@);
                            }
                            j = j + 1;
                        }
                    },
                    _ => {},
                }
                proof {
                    assert forall|r: usize| #[trigger] counted_regs(iv).contains(r) implies r <= max by {
                        if iv is Phi {
                            if r != iv->Phi_vreg {
                                let jj = choose|jj: int| 0 <= jj < iv->Phi_srcs.len() && iv->Phi_srcs[jj] == ValueV::Vreg(r);
                            }
                        }
                        if iv is Call {
                            if r != iv->Call_vreg {
                                let jj = choose|jj: int| 0 <= jj < iv->Call_args.len() && iv->Call_args[jj].1 == ValueV::Vreg(r);
                            }
                        }
                    }
                    if max != old_max {
                        assert(counted_regs(g.blocks[b as int].instructions[i as int]).contains(max));
                    }
                }
                i = i + 1;
            }
            b = b + 1;
        }
        max
    }
}
impl ControlFlowGraph {
    /// Whether every phi node has a source for each predecessor of its block.
    pub fn phis_have_sources_check(&self) -> (r: bool)
        requires
            self@.wf(),
        ensures
            r == phis_have_sources(self@),
    {
        let ghost g = self@;
        let mut b: usize = 0;
        while b < self.blocks.len()
            invariant
                g == self@,
                g.wf(),
                b <= g.len(),
                forall|bb: int, i: int|
                    0 <= bb < b && 0 <= i < g.blocks[bb].instructions.len() && (#[trigger] g.blocks[bb].instructions[i]) is Phi
                        ==> g.blocks[bb].instructions[i]->Phi_srcs.len() >= g.backward[bb].len(),
            decreases g.len() - b,
        {
            let ins = &self.blocks[b].instructions;
            let np = self.backward_edges[b].len();
            proof {
                assert(g.blocks[b as int].instructions == view_instrs(ins@));
                assert(g.backward[b as int].len() == np);
            }
            let mut i: usize = 0;
            while i < ins.len()
                invariant
                    g == self@,
                    b < g.len(),
                    g.blocks[b as int].instructions == view_instrs(ins@),
                    g.backward[b as int].len() == np,
                    i <= ins@.len(),
                    forall|bb: int, ii: int|
                        ((0 <= bb < b && 0 <= ii < g.blocks[bb].instructions.len()) || (bb == b && 0 <= ii < i)) && (
                        #[trigger] g.blocks[bb].instructions[ii]) is Phi ==> g.blocks[bb].instructions[ii]->Phi_srcs.len()
                            >= g.backward[bb].len(),
                decreases ins@.len() - i,
            {
                proof {
                    assert(g.blocks[b as int].instructions[i as int] == ins@[i as int]@);
                }
                if let Instruction::Phi { srcs, .. } = &ins[i] {
                    if srcs.len() < np {
                        return false;
                    }
                }
                i = i + 1;
            }
            b = b + 1;
        }
        true
    }

    /// Whether lowering the phi nodes can take temporary registers from `next` on: whether
    /// `next` plus [`phi_budget`] fits a `usize`.
    pub fn phi_budget_fits(&self, next: usize) -> (r: bool)
        requires
            self@.wf(),
        ensures
            r == (next + phi_budget(self@, self@.len() as int) <= usize::MAX),
    {
        let ghost g = self@;
        let mut acc: usize = next;
        let mut b: usize = 0;
        while b < self.blocks.len()
            invariant
                g == self@,
                g.wf(),
                b <= g.len(),
                acc == next + phi_budget(g, b as int),
            decreases g.len() - b,
        {
            let phis = collect_phis(&self.blocks[b].instructions);
            let np = phis.len();
            let preds = self.backward_edges[b].len();
            proof {
                assert(g.blocks[b as int].instructions == view_instrs(self.blocks@[b as int].instructions@));
                assert(num_phis(g.blocks[b as int].instructions) == np);
                assert(g.backward[b as int].len() == preds);
                assert(phi_budget(g, b + 1) == phi_budget(g, b as int) + preds * (2 * np + 1));
                lemma_budget_mono(g, b + 1, g.len() as int);
            }
            if preds > 0 {
                if np > (usize::MAX - 1) / 2 {
                    proof {
                        assert(preds * (2 * np + 1) >= 2 * np + 1) by (nonlinear_arith)
                            requires
                                preds >= 1,
                                np >= 0,
                        ;
                    }
                    return false;
                }
                let t = 2 * np + 1;
                if t > (usize::MAX - acc) / preds {
                    proof {
                        let m = (usize::MAX - acc) as int;
                        assert(preds * t > m) by (nonlinear_arith)
                            requires
                                t > m / (preds as int),
                                preds >= 1,
                                m >= 0,
                        ;
                    }
                    return false;
                }
                proof {
                    let m = (usize::MAX - acc) as int;
                    assert(preds * t <= m) by (nonlinear_arith)
                        requires
                            t <= m / (preds as int),
                            preds >= 1,
                            m >= 0,
                    ;
                }
                acc = acc + preds * t;
            } else {
                proof {
                    assert(preds * (2 * np + 1) == 0) by (nonlinear_arith)
                        requires
                            preds == 0,
                    ;
                }
            }
            b = b + 1;
        }
        true
    }
}


} // verus!
