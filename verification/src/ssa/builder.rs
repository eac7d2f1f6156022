//! The construction of SSA form by Braun et al.
//!
//! Blocks are visited in reverse post order. Each use of a register is replaced by the value
//! that reaches it, found by looking back through the predecessors of the block; where
//! several values meet, a phi node is made. A block is sealed once all its predecessors are
//! known; phi nodes asked for in a block that is not sealed yet get their operands when it is.
//! A phi node whose operands are all one value (or itself) is trivial: it is removed and
//! becomes an alias of that value.

use vstd::prelude::*;

use crate::cfg::phi_lowering::phis_have_sources;
use crate::cfg::{BasicBlock, BlockId, CfgV, ControlFlowGraph};
use crate::module::instruction::{view_arg, view_instrs, view_value, InstrV, Instruction, Type, Value, ValueV};
use crate::ssa::{PhiNode, PhiV, SsaValue, Vreg};

verus! {

/// The state of the construction.
pub struct SsaBuilder {
    /// For each block, the value each register was last given in it, in order of writing.
    curr_def: Vec<Vec<(Vreg, SsaValue)>>,
    /// For each value, the phi node it stands for, if any.
    phi_nodes: Vec<Option<PhiNode>>,
    /// For each value, the phi nodes that use it.
    phi_uses: Vec<Vec<SsaValue>>,
    /// For each value, the value that replaced it, if it was a trivial phi node.
    aliases: Vec<Option<SsaValue>>,
    /// For each block, the phi nodes made before it was sealed, with their registers.
    incomplete_phis: Vec<Vec<(Vreg, SsaValue)>>,
    sealed_blocks: Vec<bool>,
    next_value_id: usize,
    /// When each alias was made: a value that an alias points to, if it is an alias itself,
    /// was made one later.
    rank: Ghost<Seq<nat>>,
    clock: Ghost<nat>,
    /// For each value, whether it was made to be a phi node.
    made_phi: Ghost<Seq<bool>>,
}

/// The mathematical view of an [`SsaBuilder`].
pub struct SsaV {
    pub defs: Seq<Seq<(Vreg, SsaValue)>>,
    pub phis: Seq<Option<PhiV>>,
    pub uses: Seq<Seq<SsaValue>>,
    pub aliases: Seq<Option<SsaValue>>,
    pub incomplete: Seq<Seq<(Vreg, SsaValue)>>,
    pub sealed: Seq<bool>,
    pub next: usize,
    /// For each value, whether it was made to be a phi node (the others stand for
    /// assignments, or for registers that no assignment reaches).
    pub made_phi: Seq<bool>,
}

pub open spec fn view_phi(o: Option<PhiNode>) -> Option<PhiV> {
    match o {
        Some(p) => Some(p@),
        None => None,
    }
}

pub open spec fn view_pairs(v: Vec<(Vreg, SsaValue)>) -> Seq<(Vreg, SsaValue)> {
    v@
}

pub open spec fn view_values(v: Vec<SsaValue>) -> Seq<SsaValue> {
    v@
}

impl View for SsaBuilder {
    type V = SsaV;

    closed spec fn view(&self) -> SsaV {
        SsaV {
            defs: self.curr_def@.map_values(|v: Vec<(Vreg, SsaValue)>| view_pairs(v)),
            phis: self.phi_nodes@.map_values(|o: Option<PhiNode>| view_phi(o)),
            uses: self.phi_uses@.map_values(|v: Vec<SsaValue>| view_values(v)),
            aliases: self.aliases@,
            incomplete: self.incomplete_phis@.map_values(|v: Vec<(Vreg, SsaValue)>| view_pairs(v)),
            sealed: self.sealed_blocks@,
            next: self.next_value_id,
            made_phi: self.made_phi@,
        }
    }
}

/// The value last written for register `v` in the list `s`, if any.
pub open spec fn assoc_get(s: Seq<(Vreg, SsaValue)>, v: Vreg) -> Option<SsaValue>
    decreases s.len(),
{
    if s.len() == 0 {
        None
    } else if s.last().0 == v {
        Some(s.last().1)
    } else {
        assoc_get(s.drop_last(), v)
    }
}

/// How many of the first `n` blocks have no value for register `v`.
pub open spec fn missing(defs: Seq<Seq<(Vreg, SsaValue)>>, v: Vreg, n: int) -> nat
    decreases n,
{
    if n <= 0 {
        0
    } else {
        missing(defs, v, n - 1) + if assoc_get(defs[n - 1], v) is None {
            1nat
        } else {
            0nat
        }
    }
}

/// The value that replaced `x`, if any.
pub open spec fn alias_of(al: Seq<Option<SsaValue>>, x: SsaValue) -> Option<SsaValue> {
    if x.0 < al.len() {
        al[x.0 as int]
    } else {
        None
    }
}

/// Following `k` aliases from `x` leads to `r`.
pub open spec fn resolves_to(al: Seq<Option<SsaValue>>, x: SsaValue, r: SsaValue, k: nat) -> bool
    decreases k,
{
    if k == 0 {
        x == r
    } else {
        match alias_of(al, x) {
            Some(y) => resolves_to(al, y, r, (k - 1) as nat),
            None => false,
        }
    }
}

/// `r` is where the aliases from `x` end.
pub open spec fn is_root_of(al: Seq<Option<SsaValue>>, x: SsaValue, r: SsaValue) -> bool {
    alias_of(al, r) is None && exists|k: nat| resolves_to(al, x, r, k)
}

/// The roots of the first `k` operands of the phi node `p`, other than `p` itself.
pub open spec fn op_roots(s: SsaV, p: SsaValue, k: int) -> Set<SsaValue> {
    Set::new(
        |x: SsaValue|
            x != p && exists|j: int|
                0 <= j < k && is_root_of(s.aliases, s.phis[p.0 as int].unwrap().operands[j], x),
    )
}

/// Every phi node recorded in `s`, but perhaps the one of value `x`, has at least two
/// operands.
pub open spec fn wide_except(s: SsaV, x: int) -> bool {
    forall|p: int| 0 <= p < s.phis.len() && p != x && (#[trigger] s.phis[p]) is Some ==> s.phis[p].unwrap().operands.len() >= 2
}

/// Every phi node recorded in `s` has at least two operands.
pub open spec fn phis_wide(s: SsaV) -> bool {
    wide_except(s, -1)
}

/// From `a` to `b`, the lists of incomplete phi nodes kept their entries and gained only
/// values handed out after `a`.
pub open spec fn incomplete_fresh(a: SsaV, b: SsaV) -> bool {
    &&& b.incomplete.len() == a.incomplete.len()
    &&& forall|bb: int, i: int|
        0 <= bb < a.incomplete.len() && 0 <= i < b.incomplete[bb].len() ==> (i < a.incomplete[bb].len()
            && #[trigger] b.incomplete[bb][i] == a.incomplete[bb][i]) || b.incomplete[bb][i].1.0 >= a.next
}

proof fn lemma_incomplete_fresh_trans(a: SsaV, b: SsaV, c: SsaV)
    requires
        incomplete_fresh(a, b),
        incomplete_fresh(b, c),
        a.next <= b.next,
    ensures
        incomplete_fresh(a, c),
{
    assert forall|bb: int, i: int| 0 <= bb < a.incomplete.len() && 0 <= i < c.incomplete[bb].len() implies (i
        < a.incomplete[bb].len() && #[trigger] c.incomplete[bb][i] == a.incomplete[bb][i]) || c.incomplete[bb][i].1.0
        >= a.next by {
        if !(c.incomplete[bb][i].1.0 >= b.next) {
            assert(i < b.incomplete[bb].len() && c.incomplete[bb][i] == b.incomplete[bb][i]);
        }
    }
}

/// From `a` to `b`, but perhaps for the value `x0`, no phi node was recorded anew and none
/// moved to another block, and no alias was dropped.
pub open spec fn nodes_kept(a: SsaV, b: SsaV, x0: int) -> bool {
    &&& a.phis.len() <= b.phis.len()
    &&& a.aliases.len() <= b.aliases.len()
    &&& forall|x: int|
        0 <= x < a.phis.len() && x != x0 ==> ((#[trigger] b.phis[x]) is Some ==> a.phis[x] is Some && b.phis[x].unwrap().block
            == a.phis[x].unwrap().block)
    &&& forall|x: int| 0 <= x < a.aliases.len() && x != x0 && (#[trigger] a.aliases[x]) is Some ==> b.aliases[x] == a.aliases[x]
    &&& forall|x: int|
        0 <= x < a.aliases.len() && x < a.phis.len() && x != x0 && (#[trigger] b.aliases[x]) is Some && a.aliases[x] is None
            ==> a.phis[x] is Some
}

proof fn lemma_nodes_kept_trans(a: SsaV, b: SsaV, c: SsaV, x1: int, x2: int, x0: int)
    requires
        nodes_kept(a, b, x1),
        nodes_kept(b, c, x2),
        x1 == x0 || x1 < 0 || (x1 >= a.phis.len() && x1 >= a.aliases.len()),
        x2 == x0 || x2 < 0 || (x2 >= a.phis.len() && x2 >= a.aliases.len()),
    ensures
        nodes_kept(a, c, x0),
{
    assert forall|x: int| 0 <= x < a.phis.len() && x != x0 && (#[trigger] c.phis[x]) is Some implies a.phis[x] is Some
        && c.phis[x].unwrap().block == a.phis[x].unwrap().block by {
        assert(b.phis[x] is Some);
    }
    assert forall|x: int| 0 <= x < a.aliases.len() && x != x0 && (#[trigger] a.aliases[x]) is Some implies c.aliases[x] == a.aliases[x] by {
        assert(b.aliases[x] == a.aliases[x]);
    }
    assert forall|x: int|
        0 <= x < a.aliases.len() && x < a.phis.len() && x != x0 && (#[trigger] c.aliases[x]) is Some && a.aliases[x] is None
        implies a.phis[x] is Some by {
        if b.aliases[x] is None {
            assert(b.phis[x] is Some);
        }
    }
}

/// Following aliases from a value ends at one root only.
proof fn lemma_root_unique(al: Seq<Option<SsaValue>>, x: SsaValue, r1: SsaValue, r2: SsaValue)
    requires
        is_root_of(al, x, r1),
        is_root_of(al, x, r2),
    ensures
        r1 == r2,
{
    let k1 = choose|k: nat| resolves_to(al, x, r1, k);
    let k2 = choose|k: nat| resolves_to(al, x, r2, k);
    lemma_resolves_unique(al, x, r1, r2, k1, k2);
}

proof fn lemma_resolves_unique(al: Seq<Option<SsaValue>>, x: SsaValue, r1: SsaValue, r2: SsaValue, k1: nat, k2: nat)
    requires
        resolves_to(al, x, r1, k1),
        resolves_to(al, x, r2, k2),
        alias_of(al, r1) is None,
        alias_of(al, r2) is None,
    ensures
        r1 == r2,
    decreases k1,
{
    if k1 > 0 && k2 > 0 {
        let y = alias_of(al, x).unwrap();
        lemma_resolves_unique(al, y, r1, r2, (k1 - 1) as nat, (k2 - 1) as nat);
    }
}

/// `a` and `b` lead to the same root through the aliases `al`.
pub open spec fn same_root(al: Seq<Option<SsaValue>>, a: SsaValue, b: SsaValue) -> bool {
    forall|r: SsaValue| #[trigger] is_root_of(al, a, r) == is_root_of(al, b, r)
}

proof fn lemma_same_alias_of_roots(al1: Seq<Option<SsaValue>>, al2: Seq<Option<SsaValue>>, a: SsaValue, r: SsaValue, k: nat)
    requires
        forall|y: SsaValue| #[trigger] alias_of(al1, y) == alias_of(al2, y),
    ensures
        resolves_to(al1, a, r, k) == resolves_to(al2, a, r, k),
    decreases k,
{
    if k > 0 {
        if let Some(y) = alias_of(al1, a) {
            lemma_same_alias_of_roots(al1, al2, y, r, (k - 1) as nat);
        }
    }
}

/// A new value without an alias changes no root.
proof fn lemma_roots_push(al: Seq<Option<SsaValue>>, a: SsaValue, r: SsaValue)
    ensures
        is_root_of(al.push(None), a, r) == is_root_of(al, a, r),
{
    let al2 = al.push(None);
    assert forall|y: SsaValue| #[trigger] alias_of(al, y) == alias_of(al2, y) by {}
    if is_root_of(al, a, r) {
        let k = choose|k: nat| resolves_to(al, a, r, k);
        lemma_same_alias_of_roots(al, al2, a, r, k);
    }
    if is_root_of(al2, a, r) {
        let k = choose|k: nat| resolves_to(al2, a, r, k);
        lemma_same_alias_of_roots(al, al2, a, r, k);
    }
}

proof fn lemma_update_forward(al: Seq<Option<SsaValue>>, x: SsaValue, t: SsaValue, a: SsaValue, r: SsaValue, k: nat)
    requires
        x.0 < al.len(),
        alias_of(al, x) is None,
        alias_of(al, r) is None,
        resolves_to(al, a, r, k),
    ensures
        r != x ==> resolves_to(al.update(x.0 as int, Some(t)), a, r, k),
        r == x ==> resolves_to(al.update(x.0 as int, Some(t)), a, t, k + 1),
    decreases k,
{
    let al2 = al.update(x.0 as int, Some(t));
    if k == 0 {
        if r == x {
            assert(alias_of(al2, x) == Some(t));
            assert(resolves_to(al2, t, t, 0));
            assert(resolves_to(al2, x, t, 1));
        }
    } else {
        let y = alias_of(al, a).unwrap();
        assert(a != x);
        assert(alias_of(al2, a) == Some(y));
        lemma_update_forward(al, x, t, y, r, (k - 1) as nat);
        if r == x {
            assert(((k + 1) - 1) as nat == k);
        }
    }
}

proof fn lemma_update_backward(al: Seq<Option<SsaValue>>, x: SsaValue, t: SsaValue, a: SsaValue, r: SsaValue, k: nat)
    requires
        x.0 < al.len(),
        alias_of(al, x) is None,
        alias_of(al, t) is None,
        t != x,
        alias_of(al.update(x.0 as int, Some(t)), r) is None,
        resolves_to(al.update(x.0 as int, Some(t)), a, r, k),
    ensures
        (r != x && resolves_to(al, a, r, k)) || (r == t && exists|k2: nat| resolves_to(al, a, x, k2)),
    decreases k,
{
    let al2 = al.update(x.0 as int, Some(t));
    if k == 0 {
        assert(r != x);
    } else {
        let y = alias_of(al2, a).unwrap();
        if a == x {
            assert(y == t);
            assert(t.0 != x.0);
            assert(alias_of(al2, t) == alias_of(al, t));
            assert(alias_of(al2, t) is None);
            assert(resolves_to(al2, t, r, (k - 1) as nat));
            if k > 1 {
                assert(!resolves_to(al2, t, r, (k - 1) as nat));
            }
            assert(r == t);
            assert(resolves_to(al, x, x, 0));
        } else {
            assert(alias_of(al, a) == Some(y));
            lemma_update_backward(al, x, t, y, r, (k - 1) as nat);
            if r == t && !(r != x && resolves_to(al, y, r, (k - 1) as nat)) {
                let k2 = choose|k2: nat| resolves_to(al, y, x, k2);
                assert(resolves_to(al, a, x, k2 + 1));
            }
        }
    }
}

/// Giving the root `x` the alias `t`, itself a root, moves to `t` what led to `x` and
/// leaves the other roots alone.
proof fn lemma_roots_update(al: Seq<Option<SsaValue>>, x: SsaValue, t: SsaValue, a: SsaValue, r: SsaValue)
    requires
        x.0 < al.len(),
        alias_of(al, x) is None,
        alias_of(al, t) is None,
        t != x,
    ensures
        is_root_of(al.update(x.0 as int, Some(t)), a, r) == ((r != x && is_root_of(al, a, r)) || (r == t && is_root_of(
            al,
            a,
            x,
        ))),
{
    let al2 = al.update(x.0 as int, Some(t));
    assert(alias_of(al2, t) == alias_of(al, t));
    if is_root_of(al2, a, r) {
        let k = choose|k: nat| resolves_to(al2, a, r, k);
        lemma_update_backward(al, x, t, a, r, k);
        if r != x {
            assert(alias_of(al, r) == alias_of(al2, r));
        }
    }
    if r != x && is_root_of(al, a, r) {
        let k = choose|k: nat| resolves_to(al, a, r, k);
        lemma_update_forward(al, x, t, a, r, k);
        assert(alias_of(al2, r) == alias_of(al, r));
    }
    if r == t && is_root_of(al, a, x) {
        let k = choose|k: nat| resolves_to(al, a, x, k);
        lemma_update_forward(al, x, t, a, x, k);
    }
}

/// Values that led to one root through the aliases `a` still lead to one root through `b`.
pub open spec fn roots_kept(a: Seq<Option<SsaValue>>, b: Seq<Option<SsaValue>>) -> bool {
    forall|x: SsaValue, y: SsaValue| #[trigger] same_root(a, x, y) ==> same_root(b, x, y)
}

proof fn lemma_roots_kept_trans(a: Seq<Option<SsaValue>>, b: Seq<Option<SsaValue>>, c: Seq<Option<SsaValue>>)
    requires
        roots_kept(a, b),
        roots_kept(b, c),
    ensures
        roots_kept(a, c),
{
    assert forall|x: SsaValue, y: SsaValue| #[trigger] same_root(a, x, y) implies same_root(c, x, y) by {
        assert(same_root(b, x, y));
    }
}

proof fn lemma_roots_kept_push(a: Seq<Option<SsaValue>>)
    ensures
        roots_kept(a, a.push(None)),
{
    assert forall|x: SsaValue, y: SsaValue| #[trigger] same_root(a, x, y) implies same_root(a.push(None), x, y) by {
        assert forall|r: SsaValue| #[trigger] is_root_of(a.push(None), x, r) == is_root_of(a.push(None), y, r) by {
            lemma_roots_push(a, x, r);
            lemma_roots_push(a, y, r);
            assert(is_root_of(a, x, r) == is_root_of(a, y, r));
        }
    }
}

proof fn lemma_roots_kept_update(a: Seq<Option<SsaValue>>, x: SsaValue, t: SsaValue)
    requires
        x.0 < a.len(),
        alias_of(a, x) is None,
        alias_of(a, t) is None,
        t != x,
    ensures
        roots_kept(a, a.update(x.0 as int, Some(t))),
{
    let b = a.update(x.0 as int, Some(t));
    assert forall|u: SsaValue, v: SsaValue| #[trigger] same_root(a, u, v) implies same_root(b, u, v) by {
        assert forall|r: SsaValue| #[trigger] is_root_of(b, u, r) == is_root_of(b, v, r) by {
            lemma_roots_update(a, x, t, u, r);
            lemma_roots_update(a, x, t, v, r);
            assert(is_root_of(a, u, r) == is_root_of(a, v, r));
            assert(is_root_of(a, u, x) == is_root_of(a, v, x));
        }
    }
}

/// A value leads to the same root as its root.
proof fn lemma_same_root_of_root(al: Seq<Option<SsaValue>>, d: SsaValue, r: SsaValue)
    requires
        is_root_of(al, d, r),
    ensures
        same_root(al, d, r),
{
    assert forall|r2: SsaValue| #[trigger] is_root_of(al, d, r2) == is_root_of(al, r, r2) by {
        if is_root_of(al, d, r2) {
            lemma_root_unique(al, d, r, r2);
            assert(resolves_to(al, r, r, 0));
        }
        if is_root_of(al, r, r2) {
            lemma_root_self(al, r, r2);
        }
    }
}

/// Every register that has a value in a block of `a` has the same value there in `b`.
pub open spec fn defs_kept(a: Seq<Seq<(Vreg, SsaValue)>>, b: Seq<Seq<(Vreg, SsaValue)>>) -> bool {
    &&& b.len() == a.len()
    &&& forall|bb: int, v: Vreg|
        0 <= bb < a.len() && (#[trigger] assoc_get(a[bb], v)) is Some ==> assoc_get(b[bb], v) == assoc_get(a[bb], v)
}

proof fn lemma_defs_kept_trans(
    a: Seq<Seq<(Vreg, SsaValue)>>,
    b: Seq<Seq<(Vreg, SsaValue)>>,
    c: Seq<Seq<(Vreg, SsaValue)>>,
)
    requires
        defs_kept(a, b),
        defs_kept(b, c),
    ensures
        defs_kept(a, c),
{
    assert forall|bb: int, v: Vreg| 0 <= bb < a.len() && (#[trigger] assoc_get(a[bb], v)) is Some implies assoc_get(c[bb], v)
        == assoc_get(a[bb], v) by {
        assert(assoc_get(b[bb], v) == assoc_get(a[bb], v));
    }
}

/// Recording a value for a register that had none in `a` keeps what `a` had.
proof fn lemma_write_kept(a: Seq<Seq<(Vreg, SsaValue)>>, m: Seq<Seq<(Vreg, SsaValue)>>, c: int, v: Vreg, x: SsaValue)
    requires
        defs_kept(a, m),
        0 <= c < m.len(),
        assoc_get(a[c], v) is None,
    ensures
        defs_kept(a, m.update(c, m[c].push((v, x)))),
{
    let n = m.update(c, m[c].push((v, x)));
    assert forall|bb: int, u: Vreg| 0 <= bb < a.len() && (#[trigger] assoc_get(a[bb], u)) is Some implies assoc_get(n[bb], u)
        == assoc_get(a[bb], u) by {
        if bb == c {
            assert(u != v);
            assert(n[bb].drop_last() =~= m[c]);
        }
    }
}

/// What reading register `vreg` at the end of `block`, which had no value for it in `s0`,
/// gave as `r`, with `s` the builder afterwards: in a block not sealed yet a fresh value,
/// made to be a phi node and waiting for its operands; in a sealed block without
/// predecessors a fresh value; in a sealed block with one predecessor the value recorded
/// there (or what it resolves to); in a sealed block with several a new phi node with one
/// operand per predecessor, or the value it was found to stand for.
pub open spec fn read_outcome(bw: Seq<Vec<BlockId>>, s0: SsaV, s: SsaV, block: BlockId, vreg: Vreg, r: SsaValue) -> bool {
    let b = block.0 as int;
    let np = bw[b]@.len();
    &&& !s0.sealed[b] ==> r.0 == s0.next && s.made_phi[r.0 as int] && s.incomplete[b] == s0.incomplete[b].push((vreg, r))
    &&& s0.sealed[b] && np == 0 ==> r.0 == s0.next && !s.made_phi[r.0 as int]
    &&& s0.sealed[b] && np == 1 ==> (assoc_get(s.defs[bw[b]@[0].0 as int], vreg) matches Some(x) && (x == r
        || is_root_of(s.aliases, x, r)))
    &&& s0.sealed[b] && np >= 2 ==> ((r.0 == s0.next && s.phis[r.0 as int] is Some && s.phis[r.0 as int].unwrap().block
        == block && s.phis[r.0 as int].unwrap().vreg == vreg && s.phis[r.0 as int].unwrap().operands.len() == np) || (
    s.phis[s0.next as int] is None && s.aliases[s0.next as int] == Some(r)))
}

/// Every value of `a` that was a phi node or had been replaced still is one or the other in
/// `b`.
pub open spec fn settled_kept(a: SsaV, b: SsaV) -> bool {
    forall|x: int|
        0 <= x < a.next && (a.phis[x] is Some || a.aliases[x] is Some) ==> (#[trigger] b.phis[x]) is Some || b.aliases[x]
            is Some
}

/// Handing out a fresh value, or writing a register, settles nothing and unsettles nothing.
proof fn lemma_settled_grow(a: SsaV, b: SsaV)
    requires
        a.phis.len() == a.next,
        a.aliases.len() == a.next,
        b.phis.len() >= a.next,
        b.aliases.len() >= a.next,
        forall|x: int| 0 <= x < a.next ==> b.phis[x] == a.phis[x] && b.aliases[x] == a.aliases[x],
    ensures
        settled_kept(a, b),
{
}

proof fn lemma_settled_trans(a: SsaV, b: SsaV, c: SsaV)
    requires
        settled_kept(a, b),
        settled_kept(b, c),
        a.next <= b.next,
    ensures
        settled_kept(a, c),
{
    assert forall|x: int| 0 <= x < a.next && (a.phis[x] is Some || a.aliases[x] is Some) implies (#[trigger] c.phis[x]) is Some
        || c.aliases[x] is Some by {
        assert(b.phis[x] is Some || b.aliases[x] is Some);
    }
}

/// How many values stand for a phi node.
pub open spec fn phi_count(phis: Seq<Option<PhiV>>) -> nat
    decreases phis.len(),
{
    if phis.len() == 0 {
        0
    } else {
        phi_count(phis.drop_last()) + if phis.last() is Some {
            1nat
        } else {
            0nat
        }
    }
}

/// Every block named in `backward` is one of its `backward.len()` blocks.
pub open spec fn edges_in_range(backward: Seq<Vec<BlockId>>) -> bool {
    forall|i: int, j: int|
        0 <= i < backward.len() && 0 <= j < backward[i]@.len() ==> (#[trigger] backward[i]@[j]).0 < backward.len()
}

/// Every block of `old` that has a value for a register still has one in `new`.
pub open spec fn defs_grow(old: Seq<Seq<(Vreg, SsaValue)>>, new: Seq<Seq<(Vreg, SsaValue)>>) -> bool {
    &&& new.len() == old.len()
    &&& forall|b: int, v: Vreg| 0 <= b < old.len() && (#[trigger] assoc_get(old[b], v)) is Some ==> assoc_get(new[b], v) is Some
}

/// The values of `a` are still there in `b`, made for the same purpose.
pub open spec fn kinds_kept(a: SsaV, b: SsaV) -> bool {
    &&& a.made_phi.len() <= b.made_phi.len()
    &&& forall|x: int| 0 <= x < a.made_phi.len() ==> #[trigger] b.made_phi[x] == a.made_phi[x]
}

proof fn lemma_kinds_kept_trans(a: SsaV, b: SsaV, c: SsaV)
    requires
        kinds_kept(a, b),
        kinds_kept(b, c),
    ensures
        kinds_kept(a, c),
{
    assert forall|x: int| 0 <= x < a.made_phi.len() implies #[trigger] c.made_phi[x] == a.made_phi[x] by {
        assert(b.made_phi[x] == a.made_phi[x]);
    }
}

proof fn lemma_assoc_tail(s: Seq<(Vreg, SsaValue)>, v: Vreg, i: int)
    requires
        0 <= i <= s.len(),
        forall|j: int| i <= j < s.len() ==> (#[trigger] s[j]).0 != v,
    ensures
        assoc_get(s, v) == assoc_get(s.take(i), v),
    decreases s.len() - i,
{
    if i < s.len() {
        lemma_assoc_tail(s.drop_last(), v, i);
        assert(s.drop_last().take(i) =~= s.take(i));
    } else {
        assert(s.take(i) =~= s);
    }
}

proof fn lemma_missing_grow(old: Seq<Seq<(Vreg, SsaValue)>>, new: Seq<Seq<(Vreg, SsaValue)>>, v: Vreg, n: int)
    requires
        defs_grow(old, new),
        n <= old.len(),
    ensures
        missing(new, v, n) <= missing(old, v, n),
    decreases n,
{
    if n > 0 {
        lemma_missing_grow(old, new, v, n - 1);
        if assoc_get(old[n - 1], v) is Some {
            assert(assoc_get(new[n - 1], v) is Some);
        }
    }
}

proof fn lemma_missing_strict(
    old: Seq<Seq<(Vreg, SsaValue)>>,
    new: Seq<Seq<(Vreg, SsaValue)>>,
    v: Vreg,
    n: int,
    b: int,
)
    requires
        defs_grow(old, new),
        n <= old.len(),
        0 <= b < n,
        assoc_get(old[b], v) is None,
        assoc_get(new[b], v) is Some,
    ensures
        missing(new, v, n) < missing(old, v, n),
    decreases n,
{
    if b < n - 1 {
        lemma_missing_strict(old, new, v, n - 1, b);
        if assoc_get(old[n - 1], v) is Some {
            assert(assoc_get(new[n - 1], v) is Some);
        }
    } else {
        lemma_missing_grow(old, new, v, n - 1);
    }
}

proof fn lemma_defs_grow_trans(
    a: Seq<Seq<(Vreg, SsaValue)>>,
    b: Seq<Seq<(Vreg, SsaValue)>>,
    c: Seq<Seq<(Vreg, SsaValue)>>,
)
    requires
        defs_grow(a, b),
        defs_grow(b, c),
    ensures
        defs_grow(a, c),
{
    assert forall|i: int, v: Vreg| 0 <= i < a.len() && (#[trigger] assoc_get(a[i], v)) is Some implies assoc_get(
        c[i],
        v,
    ) is Some by {
        assert(assoc_get(b[i], v) is Some);
    }
}

proof fn lemma_phi_count_update(phis: Seq<Option<PhiV>>, i: int, x: Option<PhiV>)
    requires
        0 <= i < phis.len(),
    ensures
        phi_count(phis.update(i, x)) + (if phis[i] is Some {
            1nat
        } else {
            0nat
        }) == phi_count(phis) + (if x is Some {
            1nat
        } else {
            0nat
        }),
    decreases phis.len(),
{
    if i < phis.len() - 1 {
        lemma_phi_count_update(phis.drop_last(), i, x);
        assert(phis.update(i, x).drop_last() =~= phis.drop_last().update(i, x));
    } else {
        assert(phis.update(i, x).drop_last() =~= phis.drop_last());
    }
}

proof fn lemma_phi_count_push_none(phis: Seq<Option<PhiV>>)
    ensures
        phi_count(phis.push(None)) == phi_count(phis),
{
    assert(phis.push(None).drop_last() =~= phis);
}


/// `b` is `a` with, at most, another register in place of a register.
pub open spec fn value_shape(a: ValueV, b: ValueV) -> bool {
    if a is Vreg {
        b is Vreg
    } else {
        b == a
    }
}

/// `b` is `a` with, at most, other registers in place of its registers: same kind, same
/// types, labels, functions and immediates.
pub open spec fn same_shape(a: InstrV, b: InstrV) -> bool {
    match a {
        InstrV::Ret { val, ty } => b matches InstrV::Ret { val: v2, ty: t2 } && t2 == ty && value_shape(val, v2),
        InstrV::Copy { val, ty, .. } => b matches InstrV::Copy { val: v2, ty: t2, .. } && t2 == ty && value_shape(
            val,
            v2,
        ),
        InstrV::Op { kind, lhs, rhs, ty, .. } => b matches InstrV::Op { kind: k2, lhs: l2, rhs: r2, ty: t2, .. } && k2
            == kind && t2 == ty && value_shape(lhs, l2) && value_shape(rhs, r2),
        InstrV::Call { func, args, ty, discard_value, .. } => b matches InstrV::Call {
            func: f2,
            args: a2,
            ty: t2,
            discard_value: d2,
            ..
        } && f2 == func && t2 == ty && d2 == discard_value && a2.len() == args.len() && forall|j: int|
            0 <= j < args.len() ==> (#[trigger] a2[j]).0 == args[j].0 && value_shape(args[j].1, a2[j].1),
        InstrV::Label(l) => b == InstrV::Label(l),
        InstrV::Jmp(l) => b == InstrV::Jmp(l),
        InstrV::Br { cond, true_br, false_br } => b matches InstrV::Br { cond: c2, true_br: t2, false_br: f2 } && t2
            == true_br && f2 == false_br && value_shape(cond, c2),
        InstrV::Alloc { num, ty, .. } => b matches InstrV::Alloc { num: n2, ty: t2, .. } && n2 == num && t2 == ty,
        InstrV::Store { ptr, val, ty } => b matches InstrV::Store { ptr: p2, val: v2, ty: t2 } && t2 == ty
            && value_shape(ptr, p2) && value_shape(val, v2),
        InstrV::Load { ptr, ty, .. } => b matches InstrV::Load { ptr: p2, ty: t2, .. } && t2 == ty && value_shape(ptr, p2),
        InstrV::Offset { ptr, idx, ty, .. } => b matches InstrV::Offset { ptr: p2, idx: i2, ty: t2, .. } && i2 == idx && t2
            == ty && value_shape(ptr, p2),
        InstrV::Phi { srcs, ty, .. } => b matches InstrV::Phi { srcs: s2, ty: t2, .. } && t2 == ty && s2.len()
            == srcs.len() && forall|j: int| 0 <= j < srcs.len() ==> value_shape(srcs[j], #[trigger] s2[j]),
    }
}

/// Pointwise [`same_shape`].
pub open spec fn same_shapes(a: Seq<InstrV>, b: Seq<InstrV>) -> bool {
    a.len() == b.len() && forall|i: int| 0 <= i < a.len() ==> same_shape(a[i], #[trigger] b[i])
}

/// The block `new` is the block `old` in SSA form: some phi nodes, each with one source per
/// predecessor (there are `np`), followed by the instructions of `old` with other registers.
pub open spec fn ssa_block(old: Seq<InstrV>, new: Seq<InstrV>, np: nat) -> bool {
    let k = new.len() - old.len();
    &&& new.len() >= old.len()
    &&& forall|i: int| 0 <= i < k ==> (#[trigger] new[i]) is Phi && new[i]->Phi_srcs.len() == np
    &&& same_shapes(old, new.skip(k))
}

proof fn lemma_same_shape_trans(a: InstrV, b: InstrV, c: InstrV)
    requires
        same_shape(a, b),
        same_shape(b, c),
    ensures
        same_shape(a, c),
{
    match a {
        InstrV::Call { args, .. } => {
            let a2 = b->Call_args;
            let a3 = c->Call_args;
            assert forall|j: int| 0 <= j < args.len() implies (#[trigger] a3[j]).0 == args[j].0 && value_shape(
                args[j].1,
                a3[j].1,
            ) by {
                assert(a2[j].0 == args[j].0 && value_shape(args[j].1, a2[j].1));
                assert(a3[j].0 == a2[j].0 && value_shape(a2[j].1, a3[j].1));
            }
        },
        InstrV::Phi { srcs, .. } => {
            let s2 = b->Phi_srcs;
            let s3 = c->Phi_srcs;
            assert forall|j: int| 0 <= j < srcs.len() implies value_shape(srcs[j], #[trigger] s3[j]) by {
                assert(value_shape(srcs[j], s2[j]));
                assert(value_shape(s2[j], s3[j]));
            }
        },
        _ => {},
    }
}


/// No block of `g` holds a phi node.
pub open spec fn phi_free(g: CfgV) -> bool {
    forall|b: int, i: int|
        0 <= b < g.len() && 0 <= i < g.blocks[b].instructions.len() ==> !(#[trigger] g.blocks[b].instructions[i] is Phi)
}

/// The blocks of `r` are blocks of `g`; `r` holds the entry block and every successor of its
/// blocks, so every block reachable from the entry.
pub open spec fn closed_from_entry(g: CfgV, r: Set<int>) -> bool {
    &&& r.contains(0)
    &&& forall|b: int| #[trigger] r.contains(b) ==> 0 <= b < g.len()
    &&& forall|b: int, s: int|
        r.contains(b) && 0 <= s < g.forward[b].len() ==> r.contains(#[trigger] g.forward[b][s].0 as int)
}

/// The instruction at `(b, i)` assigns a register, and either is a phi node or stands in a
/// block of `r`.
pub open spec fn counted_write(g: CfgV, r: Set<int>, b: int, i: int) -> bool {
    &&& 0 <= b < g.len()
    &&& 0 <= i < g.blocks[b].instructions.len()
    &&& g.blocks[b].instructions[i].written() is Some
    &&& (r.contains(b) || g.blocks[b].instructions[i] is Phi)
}

/// Single assignment: no two of the counted instructions assign the same register, and none
/// assigns the register of a parameter.
pub open spec fn single_assignment(g: CfgV, r: Set<int>, params: Seq<(Vreg, Type)>) -> bool {
    &&& forall|b1: int, i1: int, b2: int, i2: int|
        #![trigger g.blocks[b1].instructions[i1], g.blocks[b2].instructions[i2]]
        counted_write(g, r, b1, i1) && counted_write(g, r, b2, i2) && (b1 != b2 || i1 != i2)
            ==> g.blocks[b1].instructions[i1].written() != g.blocks[b2].instructions[i2].written()
    &&& forall|b: int, i: int, k: int|
        #![trigger g.blocks[b].instructions[i], params[k]]
        counted_write(g, r, b, i) && 0 <= k < params.len() ==> g.blocks[b].instructions[i].written() != Some(
            params[k].0.0,
        )
}

/// Block by block and instruction by instruction, `a` and `b` assign the same registers and
/// have their phi nodes at the same places.
pub open spec fn same_writes(a: CfgV, b: CfgV) -> bool {
    &&& a.len() == b.len()
    &&& forall|bb: int| 0 <= bb < a.len() ==> (#[trigger] b.blocks[bb]).instructions.len() == a.blocks[bb].instructions.len()
    &&& forall|bb: int, i: int|
        0 <= bb < a.len() && 0 <= i < a.blocks[bb].instructions.len() ==> (#[trigger] b.blocks[bb].instructions[i]).written()
            == a.blocks[bb].instructions[i].written() && (b.blocks[bb].instructions[i] is Phi
            <==> a.blocks[bb].instructions[i] is Phi)
}

/// The assignment at `(b, j)` of `g`, if any, is fresh after `floor` in `s`, and `owner`
/// records it.
pub open spec fn owned_write(g: CfgV, s: SsaV, floor: usize, owner: Map<usize, (int, int)>, b: int, j: int) -> bool {
    &&& fresh_write(g.blocks[b].instructions[j], floor, s)
    &&& g.blocks[b].instructions[j].written() matches Some(w) ==> owner.contains_key(w) && owner[w] == (b, j)
}

/// From the renamed graph `g1`, whose blocks in `done` have owned assignments, phi nodes
/// `pv` were put first in the blocks (`g2`), and reads were changed without touching the
/// assignments (`g3`): single assignment holds over `done`.
proof fn lemma_single_assignment(
    g1: CfgV,
    pv: Seq<Seq<InstrV>>,
    g2: CfgV,
    g3: CfgV,
    s: SsaV,
    floor: usize,
    owner: Map<usize, (int, int)>,
    phi_owner: Map<usize, (int, int)>,
    done: Set<int>,
    params: Seq<(Vreg, Type)>,
)
    requires
        g2.len() == g1.len(),
        pv.len() == g1.len(),
        forall|b: int| 0 <= b < g1.len() ==> (#[trigger] g2.blocks[b]).instructions == pv[b] + g1.blocks[b].instructions,
        same_writes(g2, g3),
        phi_free(g1),
        forall|b: int| #[trigger] done.contains(b) ==> 0 <= b < g1.len(),
        forall|b: int, j: int|
            done.contains(b) && 0 <= j < g1.blocks[b].instructions.len() ==> owned_write(g1, s, floor, owner, b, j),
        forall|b: int, j: int|
            0 <= b < pv.len() && 0 <= j < pv[b].len() ==> (#[trigger] pv[b][j]) is Phi && pv[b][j]->Phi_vreg < s.next
                && s.made_phi[pv[b][j]->Phi_vreg as int] && phi_owner.contains_key(pv[b][j]->Phi_vreg)
                && phi_owner[pv[b][j]->Phi_vreg] == (b, j),
        s.made_phi.len() == s.next,
        forall|x: int| 0 <= x < floor ==> !(#[trigger] s.made_phi[x]),
        forall|k: int| 0 <= k < params.len() ==> (#[trigger] params[k]).0.0 < floor,
    ensures
        single_assignment(g3, done, params),
{
    // what each counted assignment of `g3` is: a phi node of `pv`, or an owned assignment of `g1`
    assert forall|b: int, i: int| #[trigger] counted_write(g3, done, b, i) implies {
        let k = pv[b].len() as int;
        if i < k {
            g3.blocks[b].instructions[i].written() == Some(pv[b][i]->Phi_vreg)
        } else {
            done.contains(b) && owned_write(g1, s, floor, owner, b, i - k) && g3.blocks[b].instructions[i].written()
                == g1.blocks[b].instructions[i - k].written()
        }
    } by {
        let k = pv[b].len() as int;
        assert(g2.blocks[b].instructions[i] == (pv[b] + g1.blocks[b].instructions)[i]);
        if i < k {
            assert(g2.blocks[b].instructions[i] == pv[b][i]);
        } else {
            assert(g2.blocks[b].instructions[i] == g1.blocks[b].instructions[i - k]);
            assert(!(g1.blocks[b].instructions[i - k] is Phi));
        }
    }
    assert forall|b1: int, i1: int, b2: int, i2: int|
        counted_write(g3, done, b1, i1) && counted_write(g3, done, b2, i2) && (b1 != b2 || i1 != i2) implies #[trigger] g3.blocks[b1].instructions[i1].written()
        != #[trigger] g3.blocks[b2].instructions[i2].written() by {
        let k1 = pv[b1].len() as int;
        let k2 = pv[b2].len() as int;
        if i1 < k1 && i2 < k2 {
            assert(phi_owner[pv[b1][i1]->Phi_vreg] == (b1, i1));
            assert(phi_owner[pv[b2][i2]->Phi_vreg] == (b2, i2));
        } else if i1 < k1 {
            assert(s.made_phi[pv[b1][i1]->Phi_vreg as int]);
            assert(owned_write(g1, s, floor, owner, b2, i2 - k2));
        } else if i2 < k2 {
            assert(s.made_phi[pv[b2][i2]->Phi_vreg as int]);
            assert(owned_write(g1, s, floor, owner, b1, i1 - k1));
        } else {
            assert(owned_write(g1, s, floor, owner, b1, i1 - k1));
            assert(owned_write(g1, s, floor, owner, b2, i2 - k2));
        }
    }
    assert forall|b: int, i: int, kk: int|
        counted_write(g3, done, b, i) && 0 <= kk < params.len() implies #[trigger] g3.blocks[b].instructions[i].written()
        != Some(#[trigger] params[kk].0.0) by {
        let k = pv[b].len() as int;
        if i < k {
            let v = pv[b][i]->Phi_vreg;
            assert(s.made_phi[v as int]);
            if v < floor {
                assert(!s.made_phi[v as int]);
            }
        } else {
            assert(owned_write(g1, s, floor, owner, b, i - k));
        }
    }
}

/// The register of a value, or 0 when it is none.
pub open spec fn reg_of(a: ValueV) -> usize {
    match a {
        ValueV::Vreg(x) => x,
        _ => 0,
    }
}

/// The last place before `i` in `s` that assigns register `v`, if any.
pub open spec fn last_write_before(s: Seq<InstrV>, i: int, v: usize) -> Option<int>
    decreases i,
{
    if i <= 0 {
        None
    } else if s[i - 1].written() == Some(v) {
        Some(i - 1)
    } else {
        last_write_before(s, i - 1, v)
    }
}

/// In `g0` the instruction at `(b, i)` reads, as its `k`-th operand, a register that an
/// instruction before it in the block assigns.
pub open spec fn local_read_at(g0: CfgV, b: int, i: int, k: int) -> bool {
    let s = g0.blocks[b].instructions;
    &&& 0 <= i < s.len()
    &&& 0 <= k < reads(s[i]).len()
    &&& reads(s[i])[k] is Vreg
    &&& last_write_before(s, i, reg_of(reads(s[i])[k])) is Some
}

/// In the blocks of `r`, where an instruction of `g0` reads a register that an earlier
/// instruction of its block assigns, the same instruction in `g` (after the `kb` phi nodes
/// put first in the block) reads the register that the last such assignment was given.
pub open spec fn local_reads(g0: CfgV, g: CfgV, r: Set<int>) -> bool {
    forall|b: int, i: int, k: int|
        #![trigger r.contains(b), local_read_at(g0, b, i, k)]
        r.contains(b) && local_read_at(g0, b, i, k) ==> {
            let s = g0.blocks[b].instructions;
            let kb = g.blocks[b].instructions.len() - s.len();
            let j = last_write_before(s, i, reg_of(reads(s[i])[k])).unwrap();
            reads(g.blocks[b].instructions[kb + i])[k] == ValueV::Vreg(
                g.blocks[b].instructions[kb + j].written().unwrap(),
            )
        }
}

/// Register `v` is that of one of the parameters `params`.
pub open spec fn is_param(params: Seq<(Vreg, Type)>, v: usize) -> bool {
    exists|j: int| 0 <= j < params.len() && params[j].0.0 == v
}

/// In `g0` the instruction at position `i` of the entry block reads, as its `k`-th operand,
/// the register of a parameter that no instruction before it in the block assigns.
pub open spec fn param_read_at(g0: CfgV, params: Seq<(Vreg, Type)>, i: int, k: int) -> bool {
    let s = g0.blocks[0].instructions;
    &&& 0 <= i < s.len()
    &&& 0 <= k < reads(s[i]).len()
    &&& reads(s[i])[k] is Vreg
    &&& is_param(params, reg_of(reads(s[i])[k]))
    &&& last_write_before(s, i, reg_of(reads(s[i])[k])) is None
}

/// In the entry block, where an instruction of `g0` reads the register of a parameter that
/// no instruction before it assigns, the same instruction in `g` (after the phi nodes put
/// first in the block) reads the parameter's own register.
pub open spec fn param_reads(g0: CfgV, g: CfgV, params: Seq<(Vreg, Type)>) -> bool {
    forall|i: int, k: int|
        #[trigger] param_read_at(g0, params, i, k) ==> {
            let s = g0.blocks[0].instructions;
            let kb = g.blocks[0].instructions.len() - s.len();
            reads(g.blocks[0].instructions[kb + i])[k] == reads(s[i])[k]
        }
}

proof fn lemma_assoc_push(s: Seq<(Vreg, SsaValue)>, v: Vreg, x: SsaValue, u: Vreg)
    ensures
        assoc_get(s.push((v, x)), u) == if u == v {
            Some(x)
        } else {
            assoc_get(s, u)
        },
{
    assert(s.push((v, x)).drop_last() =~= s);
}

proof fn lemma_last_write_bound(s: Seq<InstrV>, i: int, v: usize)
    ensures
        last_write_before(s, i, v) matches Some(j) ==> 0 <= j < i && s[j].written() == Some(v),
    decreases i,
{
    if i > 0 && s[i - 1].written() != Some(v) {
        lemma_last_write_bound(s, i - 1, v);
    }
}

/// Reading through the aliases `al` turned the reads of `a` into those of `c`.
pub open spec fn reads_resolved(al: Seq<Option<SsaValue>>, a: InstrV, c: InstrV) -> bool {
    &&& reads(c).len() == reads(a).len()
    &&& forall|k: int| 0 <= k < reads(a).len() ==> resolve_keeps(al, reads(a)[k], #[trigger] reads(c)[k])
}

/// From the renamed graph `g1`, whose blocks in `done` read the values of local assignments,
/// phi nodes `pv` were put first in the blocks (`g2`), and reads were resolved through
/// aliases `al` that leave those values alone (`g3`): the reads of `g3` are still local.
proof fn lemma_local_reads(
    g0: CfgV,
    g1: CfgV,
    pv: Seq<Seq<InstrV>>,
    g2: CfgV,
    g3: CfgV,
    al: Seq<Option<SsaValue>>,
    done: Set<int>,
)
    requires
        g1.len() == g0.len(),
        g2.len() == g1.len(),
        pv.len() == g1.len(),
        forall|b: int| 0 <= b < g1.len() ==> (#[trigger] g2.blocks[b]).instructions == pv[b] + g1.blocks[b].instructions,
        same_writes(g2, g3),
        forall|b: int, i: int|
            0 <= b < g2.len() && 0 <= i < g2.blocks[b].instructions.len() && !(g2.blocks[b].instructions[i] is Phi)
                ==> reads_resolved(al, g2.blocks[b].instructions[i], #[trigger] g3.blocks[b].instructions[i]),
        forall|b: int| #[trigger] done.contains(b) ==> 0 <= b < g1.len(),
        forall|b: int| 0 <= b < g0.len() ==> same_shapes(g0.blocks[b].instructions, #[trigger] g1.blocks[b].instructions),
        phi_free(g1),
        forall|b: int, i: int, k: int|
            done.contains(b) && #[trigger] local_read_at(g0, b, i, k) ==> reads(g1.blocks[b].instructions[i])[k]
                == ValueV::Vreg(
                g1.blocks[b].instructions[last_write_before(
                    g0.blocks[b].instructions,
                    i,
                    reg_of(reads(g0.blocks[b].instructions[i])[k]),
                ).unwrap()].written().unwrap(),
            ),
        forall|b: int, j: int|
            done.contains(b) && 0 <= j < g1.blocks[b].instructions.len() ==> ((
            #[trigger] g1.blocks[b].instructions[j]).written() matches Some(w) ==> alias_of(al, SsaValue(w)) is None),
    ensures
        local_reads(g0, g3, done),
{
    assert forall|b: int, i: int, k: int| done.contains(b) && local_read_at(g0, b, i, k) implies {
        let s = g0.blocks[b].instructions;
        let kb = g3.blocks[b].instructions.len() - s.len();
        let j = last_write_before(s, i, reg_of(reads(s[i])[k])).unwrap();
        reads(g3.blocks[b].instructions[kb + i])[k] == ValueV::Vreg(g3.blocks[b].instructions[kb + j].written().unwrap())
    } by {
        let s = g0.blocks[b].instructions;
        let t = g1.blocks[b].instructions;
        let kb = pv[b].len() as int;
        let v = reg_of(reads(s[i])[k]);
        let j = last_write_before(s, i, v).unwrap();
        lemma_last_write_bound(s, i, v);
        assert(t.len() == s.len());
        assert(g2.blocks[b].instructions[kb + i] == t[i]);
        assert(g2.blocks[b].instructions[kb + j] == t[j]);
        assert(same_shape(s[j], t[j]));
        assert(same_shape(s[i], t[i]));
        assert(!(t[i] is Phi));
        assert(t[j].written() is Some);
        assert(g3.blocks[b].instructions.len() == g2.blocks[b].instructions.len());
        assert(g3.blocks[b].instructions[kb + j].written() == t[j].written());
        assert(reads(t[i]).len() == reads(s[i]).len());
        assert(reads_resolved(al, t[i], g3.blocks[b].instructions[kb + i]));
        assert(resolve_keeps(al, reads(t[i])[k], reads(g3.blocks[b].instructions[kb + i])[k]));
    }
}

/// `new` is the graph `old` in SSA form: same blocks and edges, each block with phi nodes
/// first (one source per predecessor) and then its instructions with other registers.
pub open spec fn ssa_form_of(old: CfgV, new: CfgV) -> bool {
    &&& new.wf()
    &&& new.len() == old.len()
    &&& new.forward == old.forward
    &&& new.backward == old.backward
    &&& forall|b: int|
        0 <= b < old.len() ==> ssa_block(
            old.blocks[b].instructions,
            #[trigger] new.blocks[b].instructions,
            old.backward[b].len(),
        )
    &&& phis_have_sources(old) ==> phis_have_sources(new)
}

/// A copy of a list of values.
fn copy_values(v: &Vec<SsaValue>) -> (r: Vec<SsaValue>)
    ensures
        r@ == v@,
{
    let mut r: Vec<SsaValue> = Vec::new();
    let mut i: usize = 0;
    while i < v.len()
        invariant
            i <= v.len(),
            r@ == v@.take(i as int),
        decreases v.len() - i,
    {
        r.push(v[i]);
        assert(r@ =~= v@.take(i + 1));
        i = i + 1;
    }
    assert(v@.take(v.len() as int) =~= v@);
    r
}


/// A copy of a list of register and value pairs.
fn copy_pairs(v: &Vec<(Vreg, SsaValue)>) -> (r: Vec<(Vreg, SsaValue)>)
    ensures
        r@ == v@,
{
    let mut r: Vec<(Vreg, SsaValue)> = Vec::new();
    let mut i: usize = 0;
    while i < v.len()
        invariant
            i <= v.len(),
            r@ == v@.take(i as int),
        decreases v.len() - i,
    {
        r.push(v[i]);
        assert(r@ =~= v@.take(i + 1));
        i = i + 1;
    }
    assert(v@.take(v.len() as int) =~= v@);
    r
}


impl SsaBuilder {
    /// The tables indexed by value have one entry per value handed out.
    pub closed spec fn valid(&self) -> bool {
        let s = self@;
        &&& s.phis.len() == s.next
        &&& s.aliases.len() == s.next
        &&& s.uses.len() == s.next
        &&& self.rank@.len() == s.next
        &&& s.made_phi.len() == s.next
    }

    /// The invariant of the construction for a graph with predecessor lists `backward`.
    pub closed spec fn inv(&self, backward: Seq<Vec<BlockId>>) -> bool {
        let s = self@;
        let nb = backward.len();
        &&& self.valid()
        &&& s.defs.len() == nb
        &&& s.incomplete.len() == nb
        &&& s.sealed.len() == nb
        &&& edges_in_range(backward)
        &&& forall|v: int| 0 <= v < s.next && (#[trigger] s.aliases[v]) is Some ==> self.rank@[v] < self.clock@
        &&& forall|v: int|
            0 <= v < s.next && (#[trigger] s.aliases[v]) is Some && alias_of(s.aliases, s.aliases[v].unwrap()) is Some
                ==> self.rank@[s.aliases[v].unwrap().0 as int] > self.rank@[v]
        &&& forall|p: int|
            0 <= p < s.next && (#[trigger] s.phis[p]) is Some ==> s.phis[p].unwrap().block.0 < nb
                && s.phis[p].unwrap().operands.len() == backward[s.phis[p].unwrap().block.0 as int]@.len()
        &&& forall|b: int, i: int|
            0 <= b < nb && 0 <= i < s.incomplete[b].len() ==> (#[trigger] s.incomplete[b][i]).1.0 < s.next
                && assoc_get(s.defs[b], s.incomplete[b][i].0) is Some && s.made_phi[s.incomplete[b][i].1.0 as int]
        &&& forall|p: int| 0 <= p < s.next && (#[trigger] s.phis[p]) is Some ==> s.made_phi[p]
        &&& forall|v: int| 0 <= v < s.next && (#[trigger] s.aliases[v]) is Some ==> s.made_phi[v]
        &&& forall|p: int| 0 <= p < s.next && (#[trigger] s.phis[p]) is Some ==> s.aliases[p] is None
        &&& forall|b: int, i: int|
            0 <= b < nb && 0 <= i < s.incomplete[b].len() ==> s.phis[(#[trigger] s.incomplete[b][i]).1.0 as int] is None
                && s.aliases[s.incomplete[b][i].1.0 as int] is None
        &&& forall|b1: int, i1: int, b2: int, i2: int|
            #![trigger s.incomplete[b1][i1], s.incomplete[b2][i2]]
            0 <= b1 < nb && 0 <= i1 < s.incomplete[b1].len() && 0 <= b2 < nb && 0 <= i2 < s.incomplete[b2].len() && (b1
                != b2 || i1 != i2) ==> s.incomplete[b1][i1].1 != s.incomplete[b2][i2].1
    }

    /// What the invariant tells of the sizes of the builder's tables: one list of values,
    /// one list of incomplete phi nodes and one seal flag per block, and one entry per value
    /// in the tables of phi nodes, users and aliases.
    pub proof fn lemma_inv_sizes(&self, backward: Seq<Vec<BlockId>>)
        requires
            self.inv(backward),
        ensures
            self.valid(),
            self@.defs.len() == backward.len(),
            self@.incomplete.len() == backward.len(),
            self@.sealed.len() == backward.len(),
            self@.phis.len() == self@.next,
            self@.aliases.len() == self@.next,
            self@.uses.len() == self@.next,
            self@.made_phi.len() == self@.next,
    {
    }

    /// A valid builder has one entry per value in its tables of phi nodes, users and aliases.
    pub proof fn lemma_valid_sizes(&self)
        requires
            self.valid(),
        ensures
            self@.phis.len() == self@.next,
            self@.aliases.len() == self@.next,
            self@.uses.len() == self@.next,
            self@.made_phi.len() == self@.next,
    {
    }

    /// A builder for a graph of `num_blocks` blocks: no values, no block sealed.
    pub fn new(num_blocks: usize) -> (r: Self)
        ensures
            r@.defs == Seq::new(num_blocks as nat, |b: int| Seq::<(Vreg, SsaValue)>::empty()),
            r@.incomplete == Seq::new(num_blocks as nat, |b: int| Seq::<(Vreg, SsaValue)>::empty()),
            r@.sealed == Seq::new(num_blocks as nat, |b: int| false),
            r@.phis == Seq::<Option<PhiV>>::empty(),
            r@.uses == Seq::<Seq<SsaValue>>::empty(),
            r@.aliases == Seq::<Option<SsaValue>>::empty(),
            r@.made_phi == Seq::<bool>::empty(),
            r@.next == 0,
            r.valid(),
            forall|backward: Seq<Vec<BlockId>>|
                backward.len() == num_blocks && edges_in_range(backward) ==> #[trigger] r.inv(backward),
    {
        let mut curr_def: Vec<Vec<(Vreg, SsaValue)>> = Vec::new();
        let mut incomplete_phis: Vec<Vec<(Vreg, SsaValue)>> = Vec::new();
        let mut sealed_blocks: Vec<bool> = Vec::new();
        let mut i: usize = 0;
        while i < num_blocks
            invariant
                i <= num_blocks,
                curr_def@.len() == i,
                incomplete_phis@.len() == i,
                sealed_blocks@.len() == i,
                forall|b: int| 0 <= b < i ==> (#[trigger] curr_def@[b])@.len() == 0,
                forall|b: int| 0 <= b < i ==> (#[trigger] incomplete_phis@[b])@.len() == 0,
                forall|b: int| 0 <= b < i ==> !(#[trigger] sealed_blocks@[b]),
            decreases num_blocks - i,
        {
            curr_def.push(Vec::new());
            incomplete_phis.push(Vec::new());
            sealed_blocks.push(false);
            i = i + 1;
        }
        let r = SsaBuilder {
            curr_def,
            phi_nodes: Vec::new(),
            phi_uses: Vec::new(),
            aliases: Vec::new(),
            incomplete_phis,
            sealed_blocks,
            next_value_id: 0,
            rank: Ghost(Seq::empty()),
            clock: Ghost(0),
            made_phi: Ghost(Seq::empty()),
        };
        proof {
            assert forall|b: int| 0 <= b < num_blocks implies #[trigger] r@.defs[b] == Seq::<(Vreg, SsaValue)>::empty() by {
                assert(r@.defs[b] =~= Seq::<(Vreg, SsaValue)>::empty());
            }
            assert forall|b: int| 0 <= b < num_blocks implies #[trigger] r@.incomplete[b] == Seq::<(Vreg, SsaValue)>::empty() by {
                assert(r@.incomplete[b] =~= Seq::<(Vreg, SsaValue)>::empty());
            }
            assert(r@.defs =~= Seq::new(num_blocks as nat, |b: int| Seq::<(Vreg, SsaValue)>::empty()));
            assert(r@.incomplete =~= Seq::new(num_blocks as nat, |b: int| Seq::<(Vreg, SsaValue)>::empty()));
            assert(r@.sealed =~= Seq::new(num_blocks as nat, |b: int| false));
        }
        r
    }

    /// A fresh value: the number after the last one handed out.
    pub fn new_value(&mut self) -> (r: SsaValue)
        requires
            old(self).valid(),
        ensures
            final(self).valid(),
            r.0 == old(self)@.next,
            final(self)@.next == old(self)@.next + 1,
            final(self)@.defs == old(self)@.defs,
            final(self)@.phis == old(self)@.phis.push(None),
            final(self)@.uses == old(self)@.uses.push(Seq::empty()),
            final(self)@.aliases == old(self)@.aliases.push(None),
            final(self)@.incomplete == old(self)@.incomplete,
            final(self)@.sealed == old(self)@.sealed,
            final(self)@.made_phi == old(self)@.made_phi.push(false),
            forall|backward: Seq<Vec<BlockId>>| #[trigger] old(self).inv(backward) ==> final(self).inv(backward),
            roots_kept(old(self)@.aliases, final(self)@.aliases),
    {
        let r = self.fresh(Ghost(false));
        proof {
            lemma_roots_kept_push(old(self)@.aliases);
        }
        r
    }

    /// A fresh value that is to be a phi node.
    fn new_phi(&mut self) -> (r: SsaValue)
        requires
            old(self).valid(),
        ensures
            final(self).valid(),
            r.0 == old(self)@.next,
            final(self)@.next == old(self)@.next + 1,
            final(self)@.defs == old(self)@.defs,
            final(self)@.phis == old(self)@.phis.push(None),
            final(self)@.uses == old(self)@.uses.push(Seq::empty()),
            final(self)@.aliases == old(self)@.aliases.push(None),
            final(self)@.incomplete == old(self)@.incomplete,
            final(self)@.sealed == old(self)@.sealed,
            final(self)@.made_phi == old(self)@.made_phi.push(true),
            forall|backward: Seq<Vec<BlockId>>| #[trigger] old(self).inv(backward) ==> final(self).inv(backward),
            roots_kept(old(self)@.aliases, final(self)@.aliases),
    {
        let r = self.fresh(Ghost(true));
        proof {
            lemma_roots_kept_push(old(self)@.aliases);
        }
        r
    }

    /// A fresh value, made to be a phi node or not.
    fn fresh(&mut self, Ghost(phi): Ghost<bool>) -> (r: SsaValue)
        requires
            old(self).valid(),
        ensures
            final(self).valid(),
            r.0 == old(self)@.next,
            final(self)@.next == old(self)@.next + 1,
            final(self)@.defs == old(self)@.defs,
            final(self)@.phis == old(self)@.phis.push(None),
            final(self)@.uses == old(self)@.uses.push(Seq::empty()),
            final(self)@.aliases == old(self)@.aliases.push(None),
            final(self)@.incomplete == old(self)@.incomplete,
            final(self)@.sealed == old(self)@.sealed,
            final(self)@.made_phi == old(self)@.made_phi.push(phi),
            forall|backward: Seq<Vec<BlockId>>| #[trigger] old(self).inv(backward) ==> final(self).inv(backward),
    {
        let ghost s0 = self@;
        let id = self.next_value_id;
        self.phi_nodes.push(None);
        self.phi_uses.push(Vec::new());
        self.aliases.push(None);
        proof {
            self.rank@ = self.rank@.push(0);
            self.made_phi@ = self.made_phi@.push(phi);
        }
        // a vector of values cannot hold more entries than a `usize` counts
        self.next_value_id = self.phi_nodes.len();
        proof {
            let s = self@;
            assert(s.phis =~= s0.phis.push(None));
            assert(s.uses =~= s0.uses.push(Seq::empty()));
            assert(s.aliases =~= s0.aliases.push(None));
            assert(s.defs =~= s0.defs);
            assert(s.incomplete =~= s0.incomplete);
            assert forall|backward: Seq<Vec<BlockId>>| #[trigger] old(self).inv(backward) implies self.inv(backward) by {
                assert forall|b: int, i: int|
                    0 <= b < backward.len() && 0 <= i < s.incomplete[b].len() implies s.made_phi[(#[trigger] s.incomplete[b][i]).1.0 as int] by {
                    assert(s0.made_phi[s0.incomplete[b][i].1.0 as int]);
                }
                assert forall|p: int| 0 <= p < s.next && (#[trigger] s.phis[p]) is Some implies s.made_phi[p] by {
                    assert(s0.phis[p] is Some);
                }
            }
        }
        SsaValue(id)
    }

    /// Records that register `vreg` holds `val` at the end of `block` so far.
    pub fn write_variable(&mut self, block: BlockId, vreg: Vreg, val: SsaValue)
        requires
            block.0 < old(self)@.defs.len(),
        ensures
            final(self)@.defs == old(self)@.defs.update(block.0 as int, old(self)@.defs[block.0 as int].push((vreg, val))),
            final(self)@.phis == old(self)@.phis,
            final(self)@.uses == old(self)@.uses,
            final(self)@.aliases == old(self)@.aliases,
            final(self)@.incomplete == old(self)@.incomplete,
            final(self)@.sealed == old(self)@.sealed,
            final(self)@.next == old(self)@.next,
            final(self)@.made_phi == old(self)@.made_phi,
            defs_grow(old(self)@.defs, final(self)@.defs),
            forall|backward: Seq<Vec<BlockId>>| #[trigger] old(self).inv(backward) ==> final(self).inv(backward),
    {
        let ghost s0 = self@;
        self.curr_def[block.0].push((vreg, val));
        proof {
            let s = self@;
            assert(s.defs =~= s0.defs.update(block.0 as int, s0.defs[block.0 as int].push((vreg, val))));
            assert forall|b: int, v: Vreg| 0 <= b < s0.defs.len() && (#[trigger] assoc_get(s0.defs[b], v)) is Some implies assoc_get(
                s.defs[b],
                v,
            ) is Some by {
                if b == block.0 {
                    assert(s.defs[b].drop_last() =~= s0.defs[b]);
                }
            }
        }
    }

    /// The value last written for `vreg` in `block`, if any.
    fn lookup_def(&self, block: BlockId, vreg: Vreg) -> (r: Option<SsaValue>)
        requires
            block.0 < self@.defs.len(),
        ensures
            r == assoc_get(self@.defs[block.0 as int], vreg),
    {
        let defs = &self.curr_def[block.0];
        let ghost s = defs@;
        assert(s == self@.defs[block.0 as int]);
        let mut i: usize = defs.len();
        while i > 0
            invariant
                i <= s.len(),
                s == defs@,
                s == self@.defs[block.0 as int],
                forall|j: int| i <= j < s.len() ==> (#[trigger] s[j]).0 != vreg,
            decreases i,
        {
            if defs[i - 1].0 == vreg {
                proof {
                    lemma_assoc_tail(s, vreg, i as int);
                    assert(s.take(i as int).last() == s[i - 1]);
                }
                return Some(defs[i - 1].1);
            }
            i = i - 1;
        }
        proof {
            lemma_assoc_tail(s, vreg, 0);
            assert(s.take(0) =~= Seq::<(Vreg, SsaValue)>::empty());
        }
        None
    }

    /// The value that register `vreg` holds at the end of `block` so far: the one last
    /// written there, resolved, or else the one that reaches the block from its
    /// predecessors, which is then recorded for the block.
    pub fn read_variable(&mut self, backward_edges: &[Vec<BlockId>], block: BlockId, vreg: Vreg) -> (r: SsaValue)
        requires
            old(self).inv(backward_edges@),
            block.0 < backward_edges@.len(),
        ensures
            roots_kept(old(self)@.aliases, final(self)@.aliases),
            final(self).inv(backward_edges@),
            defs_grow(old(self)@.defs, final(self)@.defs),
            defs_kept(old(self)@.defs, final(self)@.defs),
            assoc_get(final(self)@.defs[block.0 as int], vreg) is Some,
            final(self)@.sealed == old(self)@.sealed,
            old(self)@.next <= final(self)@.next,
            kinds_kept(old(self)@, final(self)@),
            settled_kept(old(self)@, final(self)@),
            phis_wide(old(self)@) ==> phis_wide(final(self)@),
            nodes_kept(old(self)@, final(self)@, -1),
            incomplete_fresh(old(self)@, final(self)@),
            forall|b: int|
                0 <= b < backward_edges@.len() && #[trigger] old(self)@.sealed[b] ==> final(self)@.incomplete[b]
                    == old(self)@.incomplete[b],
            match assoc_get(old(self)@.defs[block.0 as int], vreg) {
                Some(d) => *final(self) == *old(self) && is_root_of(old(self)@.aliases, d, r),
                None => assoc_get(final(self)@.defs[block.0 as int], vreg) == Some(r) && read_outcome(
                    backward_edges@,
                    old(self)@,
                    final(self)@,
                    block,
                    vreg,
                    r,
                ),
            },
        decreases missing(old(self)@.defs, vreg, backward_edges@.len() as int), 2nat,
    {
        if let Some(val) = self.lookup_def(block, vreg) {
            return self.resolve(val);
        }
        self.read_variable_recursive(backward_edges, block, vreg)
    }

    /// Records `val` as a phi node of `block` made before the block was sealed.
    fn add_incomplete(&mut self, Ghost(bw): Ghost<Seq<Vec<BlockId>>>, block: BlockId, vreg: Vreg, val: SsaValue)
        requires
            old(self).inv(bw),
            block.0 < bw.len(),
            val.0 < old(self)@.next,
            assoc_get(old(self)@.defs[block.0 as int], vreg) is Some,
            old(self)@.made_phi[val.0 as int],
            old(self)@.phis[val.0 as int] is None,
            old(self)@.aliases[val.0 as int] is None,
            forall|b: int, i: int|
                0 <= b < bw.len() && 0 <= i < old(self)@.incomplete[b].len() ==> (#[trigger] old(self)@.incomplete[b][i]).1
                    != val,
        ensures
            final(self).inv(bw),
            final(self)@.made_phi == old(self)@.made_phi,
            final(self)@.incomplete == old(self)@.incomplete.update(
                block.0 as int,
                old(self)@.incomplete[block.0 as int].push((vreg, val)),
            ),
            final(self)@.defs == old(self)@.defs,
            final(self)@.phis == old(self)@.phis,
            final(self)@.aliases == old(self)@.aliases,
            final(self)@.sealed == old(self)@.sealed,
            final(self)@.next == old(self)@.next,
    {
        let ghost s0 = self@;
        self.incomplete_phis[block.0].push((vreg, val));
        proof {
            assert(self@.incomplete =~= s0.incomplete.update(
                block.0 as int,
                s0.incomplete[block.0 as int].push((vreg, val)),
            ));
            assert(self@.defs =~= s0.defs);
            assert(self@.phis =~= s0.phis);
            assert(self@.uses =~= s0.uses);
        }
    }

    /// The value of `vreg` at the end of `block`, which has none recorded yet: found by
    /// following single predecessors back to a block with a value, a block not sealed yet (a
    /// new incomplete phi node), a block without predecessors (a new value) or a block with
    /// several (a new phi node). The value is recorded for every block on the way. A chain of
    /// single predecessors that runs in a circle gives a new value.
    fn read_variable_recursive(&mut self, backward_edges: &[Vec<BlockId>], block: BlockId, vreg: Vreg) -> (r: SsaValue)
        requires
            old(self).inv(backward_edges@),
            block.0 < backward_edges@.len(),
            assoc_get(old(self)@.defs[block.0 as int], vreg) is None,
        ensures
            roots_kept(old(self)@.aliases, final(self)@.aliases),
            final(self).inv(backward_edges@),
            defs_grow(old(self)@.defs, final(self)@.defs),
            defs_kept(old(self)@.defs, final(self)@.defs),
            assoc_get(final(self)@.defs[block.0 as int], vreg) == Some(r),
            final(self)@.sealed == old(self)@.sealed,
            old(self)@.next <= final(self)@.next,
            kinds_kept(old(self)@, final(self)@),
            settled_kept(old(self)@, final(self)@),
            phis_wide(old(self)@) ==> phis_wide(final(self)@),
            nodes_kept(old(self)@, final(self)@, -1),
            incomplete_fresh(old(self)@, final(self)@),
            forall|b: int|
                0 <= b < backward_edges@.len() && #[trigger] old(self)@.sealed[b] ==> final(self)@.incomplete[b]
                    == old(self)@.incomplete[b],
            read_outcome(backward_edges@, old(self)@, final(self)@, block, vreg, r),
        decreases missing(old(self)@.defs, vreg, backward_edges@.len() as int), 1nat,
    {
        let ghost bw = backward_edges@;
        let ghost nbi = bw.len() as int;
        let ghost bi = block.0 as int;
        let ghost sp = old(self)@.sealed[bi] && bw[bi]@.len() == 1;
        let ghost p: BlockId = bw[bi]@[0];
        let nb = self.sealed_blocks.len();
        let mut chain: Vec<BlockId> = Vec::new();
        let mut cur = block;
        let mut steps: usize = 0;
        let mut result: Option<SsaValue> = None;
        let ghost mut found = false;
        proof {
            assert(defs_kept(old(self)@.defs, self@.defs));
        }
        while result.is_none()
            invariant
                bw == backward_edges@,
                nb == bw.len(),
                nbi == nb,
                bi == block.0,
                block.0 < nb,
                sp == (old(self)@.sealed[bi] && bw[bi]@.len() == 1),
                sp ==> p == bw[bi]@[0],
                self.inv(bw),
                defs_grow(old(self)@.defs, self@.defs),
                defs_kept(old(self)@.defs, self@.defs),
                self@.sealed == old(self)@.sealed,
                old(self)@.next <= self@.next,
                kinds_kept(old(self)@, self@),
                settled_kept(old(self)@, self@),
                forall|b: int|
                    0 <= b < nb && #[trigger] old(self)@.sealed[b] ==> self@.incomplete[b] == old(self)@.incomplete[b],
                cur.0 < nb,
                steps <= nb,
                forall|j: int| 0 <= j < chain@.len() ==> (#[trigger] chain@[j]).0 < nb,
                forall|j: int| 0 <= j < chain@.len() ==> assoc_get(old(self)@.defs[(#[trigger] chain@[j]).0 as int], vreg) is None,
                result is None ==> *self == *old(self) && assoc_get(self@.defs[cur.0 as int], vreg) is None
                    && chain@.len() == steps && (steps == 0 ==> cur == block) && (steps > 0 ==> chain@[0] == block),
                result matches Some(v) ==> assoc_get(self@.defs[block.0 as int], vreg) == Some(v) || (chain@.len()
                    > 0 && chain@[0] == block),
                found ==> result is Some && chain@.len() == steps + 1 && chain@.last() == cur,
                !found ==> chain@.len() == steps,
                !found ==> (result matches Some(rv) ==> assoc_get(self@.defs[cur.0 as int], vreg) == Some(rv)),
                !sp ==> chain@.len() == 0 && steps == 0,
                chain@.len() == 0 ==> (result matches Some(rv) ==> cur == block && read_outcome(
                    bw,
                    old(self)@,
                    self@,
                    block,
                    vreg,
                    rv,
                )),
                sp && steps == 0 && result is Some ==> found && p != block && (assoc_get(self@.defs[p.0 as int], vreg) matches Some(d)
                    && is_root_of(self@.aliases, d, result.unwrap())),
                sp && (steps >= 1 || result is Some) ==> chain@.len() >= 1 && chain@[0] == block,
                sp && steps == 1 ==> cur == p,
                sp && chain@.len() >= 2 ==> chain@[1] == p,
                phis_wide(old(self)@) ==> phis_wide(self@),
                nodes_kept(old(self)@, self@, -1),
                incomplete_fresh(old(self)@, self@),
                roots_kept(old(self)@.aliases, self@.aliases),
            decreases (if result is None {
                nb - steps + 1
            } else {
                0
            }),
        {
            proof {
                lemma_missing_grow(old(self)@.defs, self@.defs, vreg, nbi);
            }
            if !self.sealed_blocks[cur.0] {
                let phi = self.new_phi();
                let ghost d1 = self@.defs;
                self.write_variable(cur, vreg, phi);
                proof {
                    lemma_write_kept(old(self)@.defs, d1, cur.0 as int, vreg, phi);
                }
                self.add_incomplete(Ghost(bw), cur, vreg, phi);
                proof {
                    lemma_settled_grow(old(self)@, self@);
                }
                result = Some(phi);
            } else {
                let num_preds = backward_edges[cur.0].len();
                if num_preds == 0 {
                    let v = self.new_value();
                    let ghost d1 = self@.defs;
                    self.write_variable(cur, vreg, v);
                    proof {
                        lemma_write_kept(old(self)@.defs, d1, cur.0 as int, vreg, v);
                        lemma_settled_grow(old(self)@, self@);
                    }
                    result = Some(v);
                } else if num_preds >= 2 {
                    let phi = self.new_phi();
                    let ghost s_phi = self@;
                    let ghost before = self@.defs;
                    self.write_variable(cur, vreg, phi);
                    proof {
                        lemma_missing_strict(before, self@.defs, vreg, nbi, cur.0 as int);
                        assert(before == old(self)@.defs);
                        lemma_write_kept(old(self)@.defs, before, cur.0 as int, vreg, phi);
                    }
                    let ghost s_w = self@;
                    proof {
                        lemma_settled_grow(old(self)@, s_phi);
                        lemma_settled_grow(s_phi, s_w);
                    }
                    let v = self.add_phi_operands(backward_edges, cur, vreg, phi);
                    let ghost mid = self@.defs;
                    proof {
                        lemma_roots_kept_trans(old(self)@.aliases, s_w.aliases, self@.aliases);
                        assert(nodes_kept(old(self)@, s_w, -1));
                        lemma_nodes_kept_trans(old(self)@, s_w, self@, -1, phi.0 as int, -1);
                        lemma_kinds_kept_trans(old(self)@, s_phi, s_w);
                        lemma_settled_trans(old(self)@, s_phi, s_w);
                        lemma_kinds_kept_trans(old(self)@, s_w, self@);
                        lemma_settled_trans(old(self)@, s_w, self@);
                        lemma_defs_kept_trans(old(self)@.defs, s_w.defs, mid);
                    }
                    let ghost s_a = self@;
                    self.write_variable(cur, vreg, v);
                    proof {
                        lemma_defs_grow_trans(old(self)@.defs, mid, self@.defs);
                        lemma_write_kept(old(self)@.defs, mid, cur.0 as int, vreg, v);
                        lemma_settled_grow(s_a, self@);
                        lemma_settled_trans(old(self)@, s_a, self@);
                    }
                    result = Some(v);
                } else if steps >= nb {
                    let v = self.new_value();
                    let ghost d1 = self@.defs;
                    self.write_variable(cur, vreg, v);
                    proof {
                        lemma_write_kept(old(self)@.defs, d1, cur.0 as int, vreg, v);
                        lemma_settled_grow(old(self)@, self@);
                    }
                    result = Some(v);
                } else {
                    chain.push(cur);
                    let pred = backward_edges[cur.0][0];
                    proof {
                        assert(bw[cur.0 as int]@[0] == pred);
                    }
                    match self.lookup_def(pred, vreg) {
                        Some(d) => {
                            result = Some(self.resolve(d));
                            proof {
                                found = true;
                            }
                        },
                        None => {
                            cur = pred;
                            steps = steps + 1;
                        },
                    }
                }
            }
        }
        let val = result.unwrap();
        let ghost sm = self@;
        let mut j: usize = chain.len();
        while j > 0
            invariant
                bw == backward_edges@,
                nb == bw.len(),
                self.inv(bw),
                defs_grow(old(self)@.defs, self@.defs),
                defs_kept(old(self)@.defs, self@.defs),
                self@.sealed == old(self)@.sealed,
                old(self)@.next <= self@.next,
                kinds_kept(old(self)@, self@),
                settled_kept(old(self)@, self@),
                forall|b: int|
                    0 <= b < nb && #[trigger] old(self)@.sealed[b] ==> self@.incomplete[b] == old(self)@.incomplete[b],
                forall|jj: int| 0 <= jj < chain@.len() ==> (#[trigger] chain@[jj]).0 < nb,
                forall|jj: int| 0 <= jj < chain@.len() ==> assoc_get(old(self)@.defs[(#[trigger] chain@[jj]).0 as int], vreg) is None,
                block.0 < nb,
                j <= chain@.len(),
                assoc_get(self@.defs[block.0 as int], vreg) == Some(val) || (j > 0 && chain@[0] == block),
                self@.phis == sm.phis,
                phis_wide(old(self)@) ==> phis_wide(sm),
                nodes_kept(old(self)@, sm, -1),
                incomplete_fresh(old(self)@, sm),
                roots_kept(old(self)@.aliases, sm.aliases),
                self@.aliases == sm.aliases,
                self@.incomplete == sm.incomplete,
                self@.next == sm.next,
                self@.made_phi == sm.made_phi,
                self@.defs.len() == nb,
                forall|jj: int| j <= jj < chain@.len() ==> assoc_get(self@.defs[(#[trigger] chain@[jj]).0 as int], vreg) == Some(val),
                forall|bb: int| 0 <= bb < nb ==> assoc_get(#[trigger] self@.defs[bb], vreg) == assoc_get(sm.defs[bb], vreg)
                    || assoc_get(self@.defs[bb], vreg) == Some(val),
            decreases j,
        {
            j = j - 1;
            let ghost before = self@.defs;
            self.write_variable(chain[j], vreg, val);
            proof {
                lemma_defs_grow_trans(old(self)@.defs, before, self@.defs);
                lemma_write_kept(old(self)@.defs, before, chain@[j as int].0 as int, vreg, val);
                let c = chain@[j as int].0 as int;
                assert(assoc_get(self@.defs[c], vreg) == Some(val));
                assert forall|jj: int| j <= jj < chain@.len() implies assoc_get(self@.defs[(#[trigger] chain@[jj]).0 as int], vreg) == Some(val) by {
                    let cc = chain@[jj].0 as int;
                    if cc != c {
                        assert(self@.defs[cc] == before[cc]);
                    }
                }
                assert forall|bb: int| 0 <= bb < nb implies assoc_get(#[trigger] self@.defs[bb], vreg) == assoc_get(sm.defs[bb], vreg)
                    || assoc_get(self@.defs[bb], vreg) == Some(val) by {
                    if bb != c {
                        assert(self@.defs[bb] == before[bb]);
                    }
                }
                if chain@[j as int] == block {
                    assert(self@.defs[block.0 as int].last() == (vreg, val));
                    assert(assoc_get(self@.defs[block.0 as int], vreg) == Some(val));
                } else {
                    assert(chain@[j as int].0 != block.0);
                    assert(self@.defs == before.update(chain@[j as int].0 as int, before[chain@[j as int].0 as int].push((vreg, val))));
                    assert(self@.defs[block.0 as int] == before[block.0 as int]);
                }
                if j == 0 && chain@[0] == block {
                    assert(self@.defs[block.0 as int].last() == (vreg, val));
                    assert(assoc_get(self@.defs[block.0 as int], vreg) == Some(val));
                }
            }
        }
        proof {
            if sp {
                let pi = p.0 as int;
                if steps == 0 {
                    assert(chain@.len() == 1);
                    assert(chain@[0] == block);
                    assert(assoc_get(self@.defs[pi], vreg) == assoc_get(sm.defs[pi], vreg) || assoc_get(self@.defs[pi], vreg) == Some(val));
                } else if steps == 1 && !found {
                    assert(cur == p);
                    assert(assoc_get(self@.defs[pi], vreg) == assoc_get(sm.defs[pi], vreg) || assoc_get(self@.defs[pi], vreg) == Some(val));
                } else {
                    assert(chain@.len() >= 2);
                    assert(chain@[1] == p);
                    assert(assoc_get(self@.defs[(chain@[1]).0 as int], vreg) == Some(val));
                }
            } else {
                assert(chain@.len() == 0);
            }
        }
        val
    }

    /// Gives the phi node `phi_val` of `block` for register `vreg` one operand per
    /// predecessor of the block (the value of `vreg` at the end of that predecessor), records
    /// it as a user of each operand, and removes it if it is trivial.
    fn add_phi_operands(
        &mut self,
        backward_edges: &[Vec<BlockId>],
        block: BlockId,
        vreg: Vreg,
        phi_val: SsaValue,
    ) -> (r: SsaValue)
        requires
            old(self).inv(backward_edges@),
            block.0 < backward_edges@.len(),
            phi_val.0 < old(self)@.next,
            assoc_get(old(self)@.defs[block.0 as int], vreg) is Some,
            old(self)@.made_phi[phi_val.0 as int],
            old(self)@.phis[phi_val.0 as int] is None,
            old(self)@.aliases[phi_val.0 as int] is None,
            forall|b: int, i: int|
                0 <= b < backward_edges@.len() && 0 <= i < old(self)@.incomplete[b].len() ==> (
                #[trigger] old(self)@.incomplete[b][i]).1 != phi_val,
        ensures
            backward_edges@[block.0 as int]@.len() <= 1 ==> final(self)@.phis[phi_val.0 as int] is None,
            // a node with one operand that was removed stands for the value of the register at
            // the end of the predecessor, or for a fresh value when that value is the node itself
            backward_edges@[block.0 as int]@.len() == 1 && final(self)@.phis[phi_val.0 as int] is None ==> (
            assoc_get(final(self)@.defs[backward_edges@[block.0 as int]@[0].0 as int], vreg) matches Some(d) && same_root(
                final(self)@.aliases,
                d,
                r,
            )) || r.0 >= old(self)@.next,
            roots_kept(old(self)@.aliases, final(self)@.aliases),
            incomplete_fresh(old(self)@, final(self)@),
            final(self).inv(backward_edges@),
            defs_grow(old(self)@.defs, final(self)@.defs),
            defs_kept(old(self)@.defs, final(self)@.defs),
            final(self)@.phis[phi_val.0 as int] matches Some(n) ==> r == phi_val && n.block == block && n.vreg == vreg
                && n.operands.len() == backward_edges@[block.0 as int]@.len(),
            final(self)@.phis[phi_val.0 as int] is None ==> final(self)@.aliases[phi_val.0 as int] == Some(r),
            phis_wide(old(self)@) ==> phis_wide(final(self)@),
            nodes_kept(old(self)@, final(self)@, phi_val.0 as int),
            final(self)@.sealed == old(self)@.sealed,
            old(self)@.next <= final(self)@.next,
            kinds_kept(old(self)@, final(self)@),
            settled_kept(old(self)@, final(self)@),
            forall|b: int|
                0 <= b < backward_edges@.len() && #[trigger] old(self)@.sealed[b] ==> final(self)@.incomplete[b]
                    == old(self)@.incomplete[b],
        decreases missing(old(self)@.defs, vreg, backward_edges@.len() as int), 3nat,
    {
        let ghost bw = backward_edges@;
        let ghost nbi = bw.len() as int;
        let num_preds = backward_edges[block.0].len();
        let mut operands: Vec<SsaValue> = Vec::new();
        let mut k: usize = 0;
        while k < num_preds
            invariant
                bw == backward_edges@,
                block.0 < bw.len(),
                num_preds == bw[block.0 as int]@.len(),
                self.inv(bw),
                defs_grow(old(self)@.defs, self@.defs),
                defs_kept(old(self)@.defs, self@.defs),
                missing(self@.defs, vreg, nbi) <= missing(old(self)@.defs, vreg, nbi),
                nbi == bw.len(),
                self@.sealed == old(self)@.sealed,
                old(self)@.next <= self@.next,
                kinds_kept(old(self)@, self@),
                settled_kept(old(self)@, self@),
                forall|b: int|
                    0 <= b < bw.len() && #[trigger] old(self)@.sealed[b] ==> self@.incomplete[b] == old(self)@.incomplete[b],
                k <= num_preds,
                operands@.len() == k,
                k >= 1 ==> (assoc_get(self@.defs[bw[block.0 as int]@[0].0 as int], vreg) matches Some(d) && same_root(
                    self@.aliases,
                    d,
                    operands@[0],
                )),
                phis_wide(old(self)@) ==> phis_wide(self@),
                nodes_kept(old(self)@, self@, -1),
                incomplete_fresh(old(self)@, self@),
                roots_kept(old(self)@.aliases, self@.aliases),
                phi_val.0 < old(self)@.next,
                old(self)@.next <= self@.next,
            decreases num_preds - k,
        {
            let pred = backward_edges[block.0][k];
            proof {
                assert(bw[block.0 as int]@[k as int] == pred);
            }
            let ghost before = self@.defs;
            let ghost sb = self@;
            let op = self.read_variable(backward_edges, pred, vreg);
            proof {
                if k == 0 {
                    if let Some(d) = assoc_get(sb.defs[pred.0 as int], vreg) {
                        lemma_same_root_of_root(sb.aliases, d, op);
                    }
                } else {
                    let d = assoc_get(sb.defs[bw[block.0 as int]@[0].0 as int], vreg).unwrap();
                    assert(assoc_get(self@.defs[bw[block.0 as int]@[0].0 as int], vreg) == Some(d));
                    assert(same_root(sb.aliases, d, operands@[0]));
                }
                lemma_roots_kept_trans(old(self)@.aliases, sb.aliases, self@.aliases);
                lemma_nodes_kept_trans(old(self)@, sb, self@, -1, -1, -1);
                lemma_incomplete_fresh_trans(old(self)@, sb, self@);
                lemma_kinds_kept_trans(old(self)@, sb, self@);
                lemma_settled_trans(old(self)@, sb, self@);
                lemma_defs_kept_trans(old(self)@.defs, before, self@.defs);
                lemma_defs_grow_trans(old(self)@.defs, before, self@.defs);
                lemma_missing_grow(old(self)@.defs, self@.defs, vreg, nbi);
            }
            operands.push(op);
            k = k + 1;
        }
        let mut j: usize = 0;
        while j < operands.len()
            invariant
                bw == backward_edges@,
                self.inv(bw),
                defs_grow(old(self)@.defs, self@.defs),
                defs_kept(old(self)@.defs, self@.defs),
                self@.sealed == old(self)@.sealed,
                old(self)@.next <= self@.next,
                kinds_kept(old(self)@, self@),
                settled_kept(old(self)@, self@),
                forall|b: int|
                    0 <= b < bw.len() && #[trigger] old(self)@.sealed[b] ==> self@.incomplete[b] == old(self)@.incomplete[b],
                j <= operands@.len(),
                operands@.len() == bw[block.0 as int]@.len(),
                operands@.len() >= 1 ==> (assoc_get(self@.defs[bw[block.0 as int]@[0].0 as int], vreg) matches Some(d)
                    && same_root(self@.aliases, d, operands@[0])),
                phi_val.0 < self@.next,
                phis_wide(old(self)@) ==> phis_wide(self@),
                nodes_kept(old(self)@, self@, -1),
                incomplete_fresh(old(self)@, self@),
                roots_kept(old(self)@.aliases, self@.aliases),
                phi_val.0 < old(self)@.next,
                old(self)@.next <= self@.next,
            decreases operands@.len() - j,
        {
            let resolved_op = self.resolve(operands[j]);
            if resolved_op.0 < self.phi_uses.len() {
                let ghost sp = self@;
                self.phi_uses[resolved_op.0].push(phi_val);
                proof {
                    assert(self@.uses =~= sp.uses.update(
                        resolved_op.0 as int,
                        sp.uses[resolved_op.0 as int].push(phi_val),
                    ));
                    assert(self@.phis == sp.phis);
                    assert(self@.defs == sp.defs);
                    assert(self@.incomplete == sp.incomplete);
                }
            }
            j = j + 1;
        }
        let ghost sn = self@;
        proof {
            assert(sn.phis[phi_val.0 as int] is None);
            assert(sn.aliases[phi_val.0 as int] is None);
            assert forall|b: int, i: int| 0 <= b < bw.len() && 0 <= i < sn.incomplete[b].len() implies (
            #[trigger] sn.incomplete[b][i]).1 != phi_val by {
                if !(sn.incomplete[b][i].1.0 >= old(self)@.next) {
                    assert(sn.incomplete[b][i] == old(self)@.incomplete[b][i]);
                }
            }
        }
        let node = PhiNode { block, vreg, operands };
        self.phi_nodes.set(phi_val.0, Some(node));
        proof {
            assert(self@.phis =~= sn.phis.update(phi_val.0 as int, Some(node@)));
            assert(self@.defs == sn.defs);
            assert(self@.incomplete == sn.incomplete);
            assert(sn.made_phi[phi_val.0 as int]);
            assert(self.inv(bw));
        }
        let ghost st = self@;
        let r = self.try_remove_trivial_phi(Ghost(bw), phi_val);
        proof {
            assert(nodes_kept(old(self)@, st, phi_val.0 as int));
            assert(roots_kept(old(self)@.aliases, st.aliases));
            lemma_roots_kept_trans(old(self)@.aliases, st.aliases, self@.aliases);
            if bw[block.0 as int]@.len() <= 1 && self@.phis[phi_val.0 as int] is Some {
                let n = bw[block.0 as int]@.len() as int;
                let (x, y) = choose|x: SsaValue, y: SsaValue| x != y && #[trigger] op_roots(st, phi_val, n).contains(x)
                    && #[trigger] op_roots(st, phi_val, n).contains(y);
                let jx = choose|j: int| 0 <= j < n && is_root_of(st.aliases, st.phis[phi_val.0 as int].unwrap().operands[j], x);
                let jy = choose|j: int| 0 <= j < n && is_root_of(st.aliases, st.phis[phi_val.0 as int].unwrap().operands[j], y);
                lemma_root_unique(st.aliases, st.phis[phi_val.0 as int].unwrap().operands[0], x, y);
            }
            if bw[block.0 as int]@.len() == 1 && self@.phis[phi_val.0 as int] is None {
                let roots = op_roots(st, phi_val, 1);
                if !roots.is_empty() {
                    assert(roots.contains(r));
                    let j = choose|j: int| 0 <= j < 1 && is_root_of(st.aliases, st.phis[phi_val.0 as int].unwrap().operands[j], r);
                    assert(j == 0);
                    let d = assoc_get(st.defs[bw[block.0 as int]@[0].0 as int], vreg).unwrap();
                    lemma_same_root_of_root(st.aliases, operands@[0], r);
                    assert(same_root(st.aliases, d, r));
                    assert(same_root(self@.aliases, d, r));
                }
            }
            lemma_nodes_kept_trans(old(self)@, st, self@, phi_val.0 as int, -1, phi_val.0 as int);
            assert(incomplete_fresh(old(self)@, st));
            lemma_incomplete_fresh_trans(old(self)@, st, self@);
            lemma_kinds_kept_trans(old(self)@, st, self@);
            lemma_settled_trans(old(self)@, st, self@);
        }
        r
    }

    /// Seals `block`: all its predecessors are known, so the phi nodes made in it before get
    /// their operands. In a block with one predecessor each of them is trivial: it is removed
    /// and stands for the value of its register at the end of the predecessor.
    pub fn seal_block(&mut self, backward_edges: &[Vec<BlockId>], block: BlockId)
        requires
            old(self).inv(backward_edges@),
            block.0 < backward_edges@.len(),
        ensures
            roots_kept(old(self)@.aliases, final(self)@.aliases),
            final(self).inv(backward_edges@),
            defs_grow(old(self)@.defs, final(self)@.defs),
            final(self)@.sealed == old(self)@.sealed.update(block.0 as int, true),
            final(self)@.incomplete[block.0 as int].len() == 0,
            old(self)@.next <= final(self)@.next,
            kinds_kept(old(self)@, final(self)@),
            settled_kept(old(self)@, final(self)@),
            defs_kept(old(self)@.defs, final(self)@.defs),
            phis_wide(old(self)@) ==> phis_wide(final(self)@),
            forall|b: int|
                0 <= b < backward_edges@.len() && b != block.0 && #[trigger] old(self)@.sealed[b]
                    ==> final(self)@.incomplete[b] == old(self)@.incomplete[b],
            // each phi node that waited for the block to be sealed got its operands, one per
            // predecessor of the block, or was found to stand for another value
            forall|i: int|
                0 <= i < old(self)@.incomplete[block.0 as int].len() ==> {
                    let x = (#[trigger] old(self)@.incomplete[block.0 as int][i]).1.0 as int;
                    &&& final(self)@.phis[x] is Some || final(self)@.aliases[x] is Some
                    &&& final(self)@.phis[x] matches Some(n) ==> n.block == block && n.operands.len()
                        == backward_edges@[block.0 as int]@.len()
                    // with one predecessor, the node is removed and stands for the value of its
                    // register at the end of the predecessor (or for a fresh value when that is the
                    // node itself)
                    &&& backward_edges@[block.0 as int]@.len() == 1 ==> final(self)@.phis[x] is None
                    &&& backward_edges@[block.0 as int]@.len() == 1 && final(self)@.phis[x] is None ==> (final(self)@.aliases[x]
                        matches Some(r) && ((assoc_get(
                        final(self)@.defs[backward_edges@[block.0 as int]@[0].0 as int],
                        old(self)@.incomplete[block.0 as int][i].0,
                    ) matches Some(d) && same_root(final(self)@.aliases, d, r)) || r.0 >= old(self)@.next))
                },
    {
        let ghost bw = backward_edges@;
        let ghost s0 = self@;
        let incomplete = copy_pairs(&self.incomplete_phis[block.0]);
        self.sealed_blocks.set(block.0, true);
        self.incomplete_phis.set(block.0, Vec::new());
        proof {
            assert(self@.incomplete =~= s0.incomplete.update(block.0 as int, Seq::empty()));
            assert(self@.sealed =~= s0.sealed.update(block.0 as int, true));
            assert(self@.defs =~= s0.defs);
            assert(self@.phis =~= s0.phis);
            assert(self.inv(bw));
            assert forall|i: int| 0 <= i < incomplete@.len() implies (#[trigger] incomplete@[i]).1.0 < self@.next
                && assoc_get(self@.defs[block.0 as int], incomplete@[i].0) is Some
                && self@.made_phi[incomplete@[i].1.0 as int] by {
                assert(incomplete@[i] == s0.incomplete[block.0 as int][i]);
            }
        }
        let ghost s1 = self@;
        let mut i: usize = 0;
        while i < incomplete.len()
            invariant
                bw == backward_edges@,
                block.0 < bw.len(),
                self.inv(bw),
                defs_grow(old(self)@.defs, self@.defs),
                self@.sealed == s1.sealed,
                s1.sealed == old(self)@.sealed.update(block.0 as int, true),
                old(self)@.sealed.len() == bw.len(),
                self@.incomplete[block.0 as int].len() == 0,
                incomplete@ == old(self)@.incomplete[block.0 as int],
                forall|ii: int|
                    0 <= ii < i ==> {
                        let x = (#[trigger] incomplete@[ii]).1.0 as int;
                        &&& self@.phis[x] is Some || self@.aliases[x] is Some
                        &&& self@.phis[x] matches Some(n) ==> n.block == block
                        &&& bw[block.0 as int]@.len() == 1 ==> self@.phis[x] is None
                        &&& bw[block.0 as int]@.len() == 1 && self@.phis[x] is None ==> (self@.aliases[x] matches Some(r)
                            && ((assoc_get(self@.defs[bw[block.0 as int]@[0].0 as int], incomplete@[ii].0) matches Some(d)
                            && same_root(self@.aliases, d, r)) || r.0 >= old(self)@.next))
                    },
                old(self)@.next <= self@.next,
                kinds_kept(old(self)@, self@),
                settled_kept(old(self)@, self@),
                defs_kept(old(self)@.defs, self@.defs),
                forall|j: int| 0 <= j < incomplete@.len() ==> self@.made_phi[(#[trigger] incomplete@[j]).1.0 as int],
                forall|b: int|
                    0 <= b < bw.len() && b != block.0 && #[trigger] old(self)@.sealed[b] ==> self@.incomplete[b]
                        == old(self)@.incomplete[b],
                forall|j: int|
                    0 <= j < incomplete@.len() ==> (#[trigger] incomplete@[j]).1.0 < self@.next && assoc_get(
                        self@.defs[block.0 as int],
                        incomplete@[j].0,
                    ) is Some,
                i <= incomplete@.len(),
                phis_wide(old(self)@) ==> phis_wide(self@),
                roots_kept(old(self)@.aliases, self@.aliases),
                forall|ii: int|
                    i <= ii < incomplete@.len() ==> self@.phis[(#[trigger] incomplete@[ii]).1.0 as int] is None
                        && self@.aliases[incomplete@[ii].1.0 as int] is None,
                forall|ii: int, b: int, j: int|
                    i <= ii < incomplete@.len() && 0 <= b < bw.len() && 0 <= j < self@.incomplete[b].len()
                        ==> #[trigger] self@.incomplete[b][j].1 != #[trigger] incomplete@[ii].1,
                forall|i1: int, i2: int|
                    0 <= i1 < incomplete@.len() && 0 <= i2 < incomplete@.len() && i1 != i2 ==> #[trigger] incomplete@[i1].1
                        != #[trigger] incomplete@[i2].1,
            decreases incomplete@.len() - i,
        {
            let (vreg, phi) = incomplete[i];
            let ghost before = self@;
            proof {
                assert(self@.made_phi[incomplete@[i as int].1.0 as int]);
            }
            self.add_phi_operands(backward_edges, block, vreg, phi);
            proof {
                assert forall|ii: int| i + 1 <= ii < incomplete@.len() implies self@.phis[(#[trigger] incomplete@[ii]).1.0 as int] is None
                    && self@.aliases[incomplete@[ii].1.0 as int] is None by {
                    assert(incomplete@[ii].1 != incomplete@[i as int].1);
                    assert(incomplete@[ii].1.0 < before.next);
                }
                assert forall|ii: int, b: int, j: int|
                    i + 1 <= ii < incomplete@.len() && 0 <= b < bw.len() && 0 <= j < self@.incomplete[b].len()
                        implies #[trigger] self@.incomplete[b][j].1 != #[trigger] incomplete@[ii].1 by {
                    assert(incomplete@[ii].1.0 < before.next);
                    if !(self@.incomplete[b][j].1.0 >= before.next) {
                        assert(self@.incomplete[b][j] == before.incomplete[b][j]);
                    }
                }
                lemma_kinds_kept_trans(old(self)@, before, self@);
                lemma_settled_trans(old(self)@, before, self@);
                lemma_roots_kept_trans(old(self)@.aliases, before.aliases, self@.aliases);
                lemma_defs_kept_trans(old(self)@.defs, before.defs, self@.defs);
                assert forall|ii: int| 0 <= ii < i + 1 implies {
                    let x = (#[trigger] incomplete@[ii]).1.0 as int;
                    &&& self@.phis[x] is Some || self@.aliases[x] is Some
                    &&& self@.phis[x] matches Some(n) ==> n.block == block
                    &&& bw[block.0 as int]@.len() == 1 ==> self@.phis[x] is None
                    &&& bw[block.0 as int]@.len() == 1 && self@.phis[x] is None ==> (self@.aliases[x] matches Some(r)
                        && ((assoc_get(self@.defs[bw[block.0 as int]@[0].0 as int], incomplete@[ii].0) matches Some(d)
                        && same_root(self@.aliases, d, r)) || r.0 >= old(self)@.next))
                } by {
                    let x = incomplete@[ii].1.0 as int;
                    if ii < i {
                        assert(before.phis[x] is Some || before.aliases[x] is Some);
                        assert(before.phis[x] matches Some(n) ==> n.block == block);
                        assert(x < before.next);
                        if bw[block.0 as int]@.len() == 1 && self@.phis[x] is None {
                            assert(incomplete@[ii].1 != incomplete@[i as int].1);
                            assert(before.phis[x] is None);
                            let r = before.aliases[x].unwrap();
                            assert(self@.aliases[x] == Some(r));
                            let p0 = bw[block.0 as int]@[0].0 as int;
                            if let Some(d) = assoc_get(before.defs[p0], incomplete@[ii].0) {
                                if same_root(before.aliases, d, r) {
                                    assert(assoc_get(self@.defs[p0], incomplete@[ii].0) == Some(d));
                                    assert(same_root(self@.aliases, d, r));
                                }
                            }
                        }
                    }
                }
                assert forall|j: int| 0 <= j < incomplete@.len() implies self@.made_phi[(#[trigger] incomplete@[j]).1.0 as int] by {
                    assert(before.made_phi[incomplete@[j].1.0 as int]);
                }
                lemma_defs_grow_trans(old(self)@.defs, before.defs, self@.defs);
                assert(before.sealed == s1.sealed);
                assert(before.sealed[block.0 as int]);
                assert forall|b: int|
                    0 <= b < bw.len() && b != block.0 && #[trigger] old(self)@.sealed[b] implies self@.incomplete[b]
                        == old(self)@.incomplete[b] by {
                    assert(s1.sealed[b] == old(self)@.sealed[b]);
                    assert(before.sealed[b]);
                }
                assert forall|j: int| 0 <= j < incomplete@.len() implies (#[trigger] incomplete@[j]).1.0 < self@.next
                    && assoc_get(self@.defs[block.0 as int], incomplete@[j].0) is Some by {
                    assert(assoc_get(before.defs[block.0 as int], incomplete@[j].0) is Some);
                }
            }
            i = i + 1;
        }
    }

    /// Removes the phi node `phi` if it is trivial: if its operands, once resolved, are all
    /// one value or the node itself. The node then becomes an alias of that value (of a
    /// fresh value when it has no other operand), and the phi nodes that used it are
    /// examined in turn. Returns the value the node stands for: itself when it stays.
    fn try_remove_trivial_phi(&mut self, Ghost(bw): Ghost<Seq<Vec<BlockId>>>, phi: SsaValue) -> (r: SsaValue)
        requires
            old(self).inv(bw),
        ensures
            roots_kept(old(self)@.aliases, final(self)@.aliases),
            final(self).inv(bw),
            final(self)@.defs == old(self)@.defs,
            final(self)@.incomplete == old(self)@.incomplete,
            final(self)@.sealed == old(self)@.sealed,
            old(self)@.next <= final(self)@.next,
            kinds_kept(old(self)@, final(self)@),
            settled_kept(old(self)@, final(self)@),
            phi_count(final(self)@.phis) <= phi_count(old(self)@.phis),
            wide_except(old(self)@, phi.0 as int) ==> phis_wide(final(self)@),
            nodes_kept(old(self)@, final(self)@, -1),
            incomplete_fresh(old(self)@, final(self)@),
            forall|x: int|
                0 <= x < old(self)@.next && old(self)@.phis[x] is None ==> (#[trigger] final(self)@.phis[x]) is None
                    && final(self)@.aliases[x] == old(self)@.aliases[x],
            forall|x: int| old(self)@.next <= x < final(self)@.next ==> (#[trigger] final(self)@.phis[x]) is None,
            phi.0 >= old(self)@.next || old(self)@.phis[phi.0 as int] is None ==> *final(self) == *old(self)
                && is_root_of(old(self)@.aliases, phi, r),
            phi.0 < old(self)@.next && old(self)@.phis[phi.0 as int] is Some ==> (*final(self) == *old(self) && r == phi)
                || (final(self)@.phis[phi.0 as int] is None && final(self)@.aliases[phi.0 as int] == Some(r)),
            // the node stays only when its operands lead to two values other than itself
            phi.0 < old(self)@.next && old(self)@.phis[phi.0 as int] is Some && final(self)@.phis[phi.0 as int]
                is Some ==> *final(self) == *old(self) && r == phi && exists|x: SsaValue, y: SsaValue|
                x != y && #[trigger] op_roots(
                    old(self)@,
                    phi,
                    old(self)@.phis[phi.0 as int].unwrap().operands.len() as int,
                ).contains(x) && #[trigger] op_roots(
                    old(self)@,
                    phi,
                    old(self)@.phis[phi.0 as int].unwrap().operands.len() as int,
                ).contains(y),
            // otherwise it stands for the one value they lead to, or for a fresh value
            phi.0 < old(self)@.next && old(self)@.phis[phi.0 as int] is Some && final(self)@.phis[phi.0 as int]
                is None ==> ({
                let roots = op_roots(old(self)@, phi, old(self)@.phis[phi.0 as int].unwrap().operands.len() as int);
                &&& final(self)@.aliases[phi.0 as int] == Some(r)
                &&& forall|x: SsaValue| #[trigger] roots.contains(x) ==> x == r
                &&& roots.is_empty() ==> r.0 == old(self)@.next
                &&& !roots.is_empty() ==> roots.contains(r)
            }),
        decreases phi_count(old(self)@.phis),
    {
        if phi.0 >= self.phi_nodes.len() || self.phi_nodes[phi.0].is_none() {
            return self.resolve(phi);
        }
        let ghost s0 = self@;
        let mut same: Option<SsaValue> = None;
        let num_ops = self.phi_nodes[phi.0].as_ref().unwrap().operands.len();
        let mut k: usize = 0;
        while k < num_ops
            invariant
                self.inv(bw),
                *self == *old(self),
                phi.0 < self@.next,
                self@.phis[phi.0 as int] is Some,
                num_ops == self@.phis[phi.0 as int].unwrap().operands.len(),
                k <= num_ops,
                same matches Some(s) ==> alias_of(self@.aliases, s) is None && s != phi,
                same is None ==> op_roots(self@, phi, k as int).is_empty(),
                same matches Some(s) ==> op_roots(self@, phi, k as int).contains(s) && forall|x: SsaValue|
                    #[trigger] op_roots(self@, phi, k as int).contains(x) ==> x == s,
            decreases num_ops - k,
        {
            let op = self.phi_nodes[phi.0].as_ref().unwrap().operands[k];
            let resolved_op = self.resolve(op);
            let ghost ops = self@.phis[phi.0 as int].unwrap().operands;
            proof {
                assert(op == ops[k as int]);
                assert forall|x: SsaValue| #[trigger] op_roots(self@, phi, k + 1).contains(x) implies op_roots(
                    self@,
                    phi,
                    k as int,
                ).contains(x) || x == resolved_op by {
                    let j = choose|j: int| 0 <= j < k + 1 && is_root_of(self@.aliases, ops[j], x);
                    if j == k {
                        lemma_root_unique(self@.aliases, op, x, resolved_op);
                    } else {
                        assert(op_roots(self@, phi, k as int).contains(x));
                    }
                }
                assert forall|x: SsaValue| #[trigger] op_roots(self@, phi, k as int).contains(x) implies op_roots(
                    self@,
                    phi,
                    k + 1,
                ).contains(x) by {
                    let j = choose|j: int| 0 <= j < k && is_root_of(self@.aliases, ops[j], x);
                }
                if resolved_op != phi {
                    assert(op_roots(self@, phi, k + 1).contains(resolved_op));
                }
            }
            let skip = resolved_op == phi || (same.is_some() && same.unwrap() == resolved_op);
            if !skip {
                if same.is_some() {
                    proof {
                        let s = same.unwrap();
                        let n = num_ops as int;
                        let jj = choose|j: int| 0 <= j < k && is_root_of(self@.aliases, ops[j], s);
                        assert(op_roots(self@, phi, n).contains(s));
                        assert(op_roots(self@, phi, n).contains(resolved_op));
                        assert(num_ops >= 2);
                    }
                    return phi;
                }
                same = Some(resolved_op);
                proof {
                    assert(op_roots(self@, phi, k as int).is_empty());
                    assert forall|x: SsaValue| #[trigger] op_roots(self@, phi, k + 1).contains(x) implies x == resolved_op by {
                        if op_roots(self@, phi, k as int).contains(x) {
                            assert(op_roots(self@, phi, k as int).is_empty());
                        }
                    }
                }
            } else {
                proof {
                    if same.is_none() {
                        assert forall|x: SsaValue| !#[trigger] op_roots(self@, phi, k + 1).contains(x) by {
                            if op_roots(self@, phi, k + 1).contains(x) {
                                if !op_roots(self@, phi, k as int).contains(x) {
                                    assert(x == resolved_op);
                                }
                            }
                        }
                        assert(op_roots(self@, phi, k + 1) =~= Set::<SsaValue>::empty());
                    }
                }
            }
            k = k + 1;
        }
        let same_val = match same {
            Some(v) => v,
            None => {
                let v = self.new_value();
                proof {
                    lemma_phi_count_push_none(s0.phis);
                }
                v
            },
        };
        let ghost s1 = self@;
        proof {
            assert(alias_of(s1.aliases, same_val) is None);
            assert(same_val != phi);
            assert(s1.phis[phi.0 as int] is Some);
            assert(alias_of(s1.aliases, phi) is None);
            lemma_roots_kept_update(s1.aliases, phi, same_val);
            if s1.aliases != s0.aliases {
                lemma_roots_kept_push(s0.aliases);
                assert(s1.aliases == s0.aliases.push(None));
            }
            lemma_roots_kept_trans(s0.aliases, s1.aliases, s1.aliases.update(phi.0 as int, Some(same_val)));
        }
        self.phi_nodes.set(phi.0, None);
        self.aliases.set(phi.0, Some(same_val));
        proof {
            self.rank@ = self.rank@.update(phi.0 as int, self.clock@);
            self.clock@ = self.clock@ + 1;
            lemma_phi_count_update(s1.phis, phi.0 as int, None);
        }
        let users = copy_values(&self.phi_uses[phi.0]);
        self.phi_uses.set(phi.0, Vec::new());
        let ghost s2 = self@;
        proof {
            assert(self@.phis =~= s1.phis.update(phi.0 as int, None));
            assert(self@.aliases =~= s1.aliases.update(phi.0 as int, Some(same_val)));
            assert(self.inv(bw));
            assert(phi_count(self@.phis) < phi_count(old(self)@.phis));
        }
        let mut u: usize = 0;
        while u < users.len()
            invariant
                self.inv(bw),
                self@.defs == old(self)@.defs,
                self@.incomplete == old(self)@.incomplete,
                self@.sealed == old(self)@.sealed,
                old(self)@.next <= self@.next,
                kinds_kept(old(self)@, self@),
                settled_kept(old(self)@, self@),
                phi.0 < self@.next,
                phi_count(self@.phis) < phi_count(old(self)@.phis),
                wide_except(old(self)@, phi.0 as int) ==> phis_wide(self@),
                nodes_kept(old(self)@, self@, -1),
                roots_kept(old(self)@.aliases, self@.aliases),
                self@.phis[phi.0 as int] is None,
                self@.aliases[phi.0 as int] == Some(same_val),
                forall|x: int|
                    0 <= x < old(self)@.next && old(self)@.phis[x] is None ==> (#[trigger] self@.phis[x]) is None
                        && self@.aliases[x] == old(self)@.aliases[x],
                forall|x: int| old(self)@.next <= x < self@.next && x != phi.0 ==> (#[trigger] self@.phis[x]) is None,
                u <= users@.len(),
            decreases users@.len() - u,
        {
            let user = users[u];
            if user != phi {
                if user.0 < self.phi_nodes.len() && self.phi_nodes[user.0].is_some() {
                    let ghost su = self@;
                    let node = self.phi_nodes[user.0].as_ref().unwrap();
                    let block = node.block;
                    let vreg = node.vreg;
                    let mut new_ops: Vec<SsaValue> = Vec::new();
                    let mut replaced = false;
                    let mut j: usize = 0;
                    while j < node.operands.len()
                        invariant
                            self.inv(bw),
                            self@ == su,
                            node@ == su.phis[user.0 as int].unwrap(),
                            j <= node.operands@.len(),
                            new_ops@.len() == j,
                            j == node.operands@.len() ==> new_ops@.len() == su.phis[user.0 as int].unwrap().operands.len(),
                        decreases node.operands@.len() - j,
                    {
                        let op = node.operands[j];
                        if self.resolve(op) == phi {
                            new_ops.push(same_val);
                            replaced = true;
                        } else {
                            new_ops.push(op);
                        }
                        j = j + 1;
                    }
                    self.phi_nodes.set(user.0, Some(PhiNode { block, vreg, operands: new_ops }));
                    proof {
                        lemma_phi_count_update(su.phis, user.0 as int, Some(PhiV { block, vreg, operands: new_ops@ }));
                        assert(self@.phis =~= su.phis.update(user.0 as int, Some(PhiV { block, vreg, operands: new_ops@ })));
                        assert(self.inv(bw));
                    }
                    if replaced {
                        let target = self.resolve(same_val);
                        if target.0 < self.phi_uses.len() {
                            let ghost sp = self@;
                            self.phi_uses[target.0].push(user);
                            proof {
                                assert(self@.uses =~= sp.uses.update(target.0 as int, sp.uses[target.0 as int].push(user)));
                                assert(self@.phis == sp.phis);
                                assert(self.inv(bw));
                            }
                        }
                    }
                }
                let ghost sr = self@;
                self.try_remove_trivial_phi(Ghost(bw), user);
                proof {
                    lemma_roots_kept_trans(old(self)@.aliases, sr.aliases, self@.aliases);
                    lemma_nodes_kept_trans(old(self)@, sr, self@, -1, -1, -1);
                    lemma_kinds_kept_trans(old(self)@, sr, self@);
                    lemma_settled_trans(old(self)@, sr, self@);
                }
            }
            u = u + 1;
        }
        same_val
    }

    /// The value that `val` stands for: `val` itself, or the end of the chain of aliases
    /// that starts at it.
    pub fn resolve(&self, val: SsaValue) -> (r: SsaValue)
        requires
            exists|backward: Seq<Vec<BlockId>>| #[trigger] self.inv(backward),
        ensures
            is_root_of(self@.aliases, val, r),
    {
        let ghost s = self@;
        let ghost al = s.aliases;
        let mut cur = val;
        let ghost mut k: nat = 0;
        while cur.0 < self.aliases.len() && self.aliases[cur.0].is_some()
            invariant
                exists|backward: Seq<Vec<BlockId>>| #[trigger] self.inv(backward),
                al == self@.aliases,
                resolves_to(al, val, cur, k),
            decreases if alias_of(al, cur) is Some {
                self.clock@ - self.rank@[cur.0 as int]
            } else {
                0
            },
        {
            let next = self.aliases[cur.0].unwrap();
            proof {
                lemma_resolves_step(al, val, cur, next, k);
                k = k + 1;
            }
            cur = next;
        }
        proof {
            assert(alias_of(al, cur) is None);
        }
        cur
    }
}

proof fn lemma_resolves_step(al: Seq<Option<SsaValue>>, x: SsaValue, y: SsaValue, z: SsaValue, k: nat)
    requires
        resolves_to(al, x, y, k),
        alias_of(al, y) == Some(z),
    ensures
        resolves_to(al, x, z, k + 1),
    decreases k,
{
    if k > 0 {
        let x1 = alias_of(al, x).unwrap();
        lemma_resolves_step(al, x1, y, z, (k - 1) as nat);
        assert(((k + 1) - 1) as nat == k);
    } else {
        assert(resolves_to(al, z, z, 0));
    }
}

/// The values that an instruction reads, in order.
pub open spec fn reads(i: InstrV) -> Seq<ValueV> {
    match i {
        InstrV::Ret { val, .. } => seq![val],
        InstrV::Copy { val, .. } => seq![val],
        InstrV::Op { lhs, rhs, .. } => seq![lhs, rhs],
        InstrV::Call { args, .. } => args.map_values(|a: (Type, ValueV)| a.1),
        InstrV::Br { cond, .. } => seq![cond],
        InstrV::Store { ptr, val, .. } => seq![ptr, val],
        InstrV::Load { ptr, .. } => seq![ptr],
        InstrV::Offset { ptr, .. } => seq![ptr],
        InstrV::Phi { srcs, .. } => srcs,
        _ => Seq::empty(),
    }
}

/// Reading `a` at the end of block `b` of `s` gave `c`: when `a` is a register that has, in
/// `b`, an assignment's value (one not made to be a phi node), `c` is that value.
pub open spec fn read_ok(s: SsaV, b: int, a: ValueV, c: ValueV) -> bool {
    match a {
        ValueV::Vreg(x) => match assoc_get(s.defs[b], Vreg(x)) {
            Some(d) => (!s.made_phi[d.0 as int] && d.0 < s.next) ==> c == ValueV::Vreg(d.0),
            None => true,
        },
        _ => true,
    }
}

proof fn lemma_read_ok_back(s0: SsaV, s1: SsaV, b: int, a: ValueV, c: ValueV)
    requires
        defs_kept(s0.defs, s1.defs),
        kinds_kept(s0, s1),
        s0.next <= s1.next,
        s0.made_phi.len() == s0.next,
        0 <= b < s0.defs.len(),
        read_ok(s1, b, a, c),
    ensures
        read_ok(s0, b, a, c),
{
    if let ValueV::Vreg(x) = a {
        if let Some(d) = assoc_get(s0.defs[b], Vreg(x)) {
            assert(assoc_get(s1.defs[b], Vreg(x)) == Some(d));
            if !s0.made_phi[d.0 as int] && d.0 < s0.next {
                assert(s1.made_phi[d.0 as int] == s0.made_phi[d.0 as int]);
            }
        }
    }
}

/// A value that no alias leads away from is its own root.
proof fn lemma_root_self(al: Seq<Option<SsaValue>>, x: SsaValue, r: SsaValue)
    requires
        alias_of(al, x) is None,
        is_root_of(al, x, r),
    ensures
        r == x,
{
    assert(resolves_to(al, x, x, 0));
    lemma_root_unique(al, x, x, r);
}

/// Resolving `a` gave `c`: a register that no alias leads away from stays as it is.
pub open spec fn resolve_keeps(al: Seq<Option<SsaValue>>, a: ValueV, c: ValueV) -> bool {
    match a {
        ValueV::Vreg(x) => alias_of(al, SsaValue(x)) is None ==> c == a,
        _ => true,
    }
}

/// The register that `i` assigns, if any, is a value handed out from `from` on, before
/// `s.next`, and not made to be a phi node.
pub open spec fn fresh_write(i: InstrV, from: usize, s: SsaV) -> bool {
    match i.written() {
        Some(w) => from <= w < s.next && !s.made_phi[w as int],
        None => true,
    }
}

/// The operand `v` with its register, if any, replaced by the value that reaches it at the
/// end of `block` so far.
fn read_value(builder: &mut SsaBuilder, backward_edges: &[Vec<BlockId>], block: BlockId, v: &Value) -> (r: Value)
    requires
        old(builder).inv(backward_edges@),
        block.0 < backward_edges@.len(),
    ensures
        final(builder).inv(backward_edges@),
        final(builder)@.sealed == old(builder)@.sealed,
        old(builder)@.next <= final(builder)@.next,
        kinds_kept(old(builder)@, final(builder)@),
        phis_wide(old(builder)@) ==> phis_wide(final(builder)@),
        defs_kept(old(builder)@.defs, final(builder)@.defs),
        value_shape(v@, r@),
        read_ok(old(builder)@, block.0 as int, v@, r@),
{
    match v {
        Value::Vreg(id) => {
            let ghost s0 = builder@;
            let x = builder.read_variable(backward_edges, block, Vreg(*id));
            proof {
                if let Some(d) = assoc_get(s0.defs[block.0 as int], Vreg(*id)) {
                    if !s0.made_phi[d.0 as int] && d.0 < s0.next {
                        assert(alias_of(s0.aliases, d) is None);
                        lemma_root_self(s0.aliases, d, x);
                    }
                }
            }
            Value::Vreg(x.0)
        },
        _ => {
            proof {
                assert(defs_kept(builder@.defs, builder@.defs));
            }
            v.duplicate()
        },
    }
}

/// A fresh value for a new assignment of register `vreg`, of type `ty`, in `block`.
fn define(
    builder: &mut SsaBuilder,
    backward_edges: &[Vec<BlockId>],
    block: BlockId,
    vreg: usize,
    ty: Type,
    var_types: &mut Vec<(Vreg, Type)>,
) -> (r: usize)
    requires
        old(builder).inv(backward_edges@),
        block.0 < backward_edges@.len(),
    ensures
        final(builder).inv(backward_edges@),
        final(builder)@.sealed == old(builder)@.sealed,
        old(builder)@.next <= r < final(builder)@.next,
        !final(builder)@.made_phi[r as int],
        kinds_kept(old(builder)@, final(builder)@),
        phis_wide(old(builder)@) ==> phis_wide(final(builder)@),
        final(builder)@.defs.len() == old(builder)@.defs.len(),
        assoc_get(final(builder)@.defs[block.0 as int], Vreg(vreg)) == Some(SsaValue(r)),
        forall|u: Vreg|
            u != Vreg(vreg) ==> #[trigger] assoc_get(final(builder)@.defs[block.0 as int], u) == assoc_get(
                old(builder)@.defs[block.0 as int],
                u,
            ),
        forall|bb: int| 0 <= bb < old(builder)@.defs.len() && bb != block.0 ==> #[trigger] final(builder)@.defs[bb] == old(builder)@.defs[bb],
{
    proof {
        assert(builder.valid());
    }
    let v = builder.new_value();
    var_types.push((Vreg(vreg), ty));
    let ghost d0 = builder@.defs;
    builder.write_variable(block, Vreg(vreg), v);
    proof {
        assert(builder@.defs[block.0 as int].drop_last() =~= d0[block.0 as int]);
    }
    v.0
}

/// The instruction with each register it reads replaced by the value that reaches it, and
/// the register it writes, if any, replaced by a fresh value.
fn rename_instruction(
    builder: &mut SsaBuilder,
    backward_edges: &[Vec<BlockId>],
    block: BlockId,
    ins: &Instruction,
    var_types: &mut Vec<(Vreg, Type)>,
) -> (r: Instruction)
    requires
        old(builder).inv(backward_edges@),
        block.0 < backward_edges@.len(),
    ensures
        final(builder).inv(backward_edges@),
        final(builder)@.sealed == old(builder)@.sealed,
        old(builder)@.next <= final(builder)@.next,
        kinds_kept(old(builder)@, final(builder)@),
        phis_wide(old(builder)@) ==> phis_wide(final(builder)@),
        same_shape(ins@, r@),
        !(ins@ is Phi) ==> fresh_write(r@, old(builder)@.next, final(builder)@),
        final(builder)@.defs.len() == old(builder)@.defs.len(),
        // each value read is the assignment's value that the register had in the block
        reads(r@).len() == reads(ins@).len(),
        forall|k: int|
            !(ins@ is Phi) && 0 <= k < reads(ins@).len() ==> read_ok(
                old(builder)@,
                block.0 as int,
                reads(ins@)[k],
                #[trigger] reads(r@)[k],
            ),
        // the register assigned now has the new value in the block; the others keep theirs
        !(ins@ is Phi) ==> (ins@.written() matches Some(v) ==> assoc_get(final(builder)@.defs[block.0 as int], Vreg(v))
            == Some(SsaValue(r@.written().unwrap()))),
        forall|u: Vreg|
            (ins@ is Phi || ins@.written() != Some(u.0)) && (#[trigger] assoc_get(old(builder)@.defs[block.0 as int], u))
                is Some ==> assoc_get(final(builder)@.defs[block.0 as int], u) == assoc_get(old(builder)@.defs[block.0 as int], u),
{
    let ghost s0 = builder@;
    proof {
        assert(s0.made_phi.len() == s0.next);
        assert(s0.defs.len() == backward_edges@.len());
    }
    match ins {
        Instruction::Ret { val, ty } => {
            let v = read_value(builder, backward_edges, block, val);
            let r = Instruction::Ret { val: v, ty: *ty };
            proof {
                assert(reads(r@)[0] == v@);
                assert(reads(ins@)[0] == val@);
                assert(reads(ins@).len() == 1);
                assert forall|k: int| 0 <= k < reads(ins@).len() implies read_ok(
                    s0,
                    block.0 as int,
                    reads(ins@)[k],
                    #[trigger] reads(r@)[k],
                ) by {
                    assert(k == 0);
                }
            }
            r
        },
        Instruction::Copy { vreg, val, ty } => {
            let v = read_value(builder, backward_edges, block, val);
            let ghost s1 = builder@;
            let d = define(builder, backward_edges, block, *vreg, *ty, var_types);
            proof {
                lemma_kinds_kept_trans(s0, s1, builder@);
            }
            let r = Instruction::Copy { vreg: d, val: v, ty: *ty };
            proof {
                assert(reads(r@)[0] == v@);
            }
            r
        },
        Instruction::Op { vreg, kind, lhs, rhs, ty } => {
            let l = read_value(builder, backward_edges, block, lhs);
            let ghost s1 = builder@;
            let r = read_value(builder, backward_edges, block, rhs);
            let ghost s2 = builder@;
            let d = define(builder, backward_edges, block, *vreg, *ty, var_types);
            proof {
                lemma_kinds_kept_trans(s0, s1, s2);
                lemma_kinds_kept_trans(s0, s2, builder@);
                lemma_defs_kept_trans(s0.defs, s1.defs, s2.defs);
                lemma_read_ok_back(s0, s1, block.0 as int, rhs@, r@);
            }
            let res = Instruction::Op { vreg: d, kind: *kind, lhs: l, rhs: r, ty: *ty };
            proof {
                assert(reads(res@)[0] == l@);
                assert(reads(res@)[1] == r@);
                assert(reads(ins@)[1] == rhs@);
            }
            res
        },
        Instruction::Call { vreg, func, args, ty, discard_value } => {
            let mut new_args: Vec<(Type, Value)> = Vec::new();
            let mut j: usize = 0;
            while j < args.len()
                invariant
                    builder.inv(backward_edges@),
                    builder@.sealed == old(builder)@.sealed,
                    s0 == old(builder)@,
                    s0.next <= builder@.next,
                    kinds_kept(s0, builder@),
                    phis_wide(s0) ==> phis_wide(builder@),
                    block.0 < backward_edges@.len(),
                    defs_kept(s0.defs, builder@.defs),
                    s0.made_phi.len() == s0.next,
                    s0.defs.len() == backward_edges@.len(),
                    forall|jj: int| 0 <= jj < j ==> read_ok(s0, block.0 as int, args@[jj].1@, (#[trigger] new_args@[jj]).1@),
                    j <= args@.len(),
                    new_args@.len() == j,
                    forall|jj: int|
                        0 <= jj < j ==> (#[trigger] new_args@[jj]).0 == args@[jj].0 && value_shape(
                            args@[jj].1@,
                            new_args@[jj].1@,
                        ),
                decreases args@.len() - j,
            {
                let ghost sj = builder@;
                let v = read_value(builder, backward_edges, block, &args[j].1);
                proof {
                    lemma_kinds_kept_trans(s0, sj, builder@);
                    lemma_read_ok_back(s0, sj, block.0 as int, args@[j as int].1@, v@);
                    lemma_defs_kept_trans(s0.defs, sj.defs, builder@.defs);
                }
                new_args.push((args[j].0, v));
                j = j + 1;
            }
            let ghost s1 = builder@;
            let d = define(builder, backward_edges, block, *vreg, *ty, var_types);
            proof {
                lemma_kinds_kept_trans(s0, s1, builder@);
            }
            let r = Instruction::Call {
                vreg: d,
                func: crate::module::instruction::copy_bytes(func),
                args: new_args,
                ty: *ty,
                discard_value: *discard_value,
            };
            proof {
                let a1 = args@.map_values(|a: (Type, Value)| view_arg(a));
                let a2 = new_args@.map_values(|a: (Type, Value)| view_arg(a));
                assert forall|jj: int| 0 <= jj < a1.len() implies (#[trigger] a2[jj]).0 == a1[jj].0 && value_shape(
                    a1[jj].1,
                    a2[jj].1,
                ) by {
                    assert(a1[jj] == view_arg(args@[jj]));
                    assert(a2[jj] == view_arg(new_args@[jj]));
                }
                assert(reads(ins@) == a1.map_values(|a: (Type, ValueV)| a.1));
                assert(reads(r@) == a2.map_values(|a: (Type, ValueV)| a.1));
                assert forall|k: int| 0 <= k < reads(ins@).len() implies read_ok(
                    s0,
                    block.0 as int,
                    reads(ins@)[k],
                    #[trigger] reads(r@)[k],
                ) by {
                    assert(a1[k] == view_arg(args@[k]));
                    assert(a2[k] == view_arg(new_args@[k]));
                    assert(read_ok(s0, block.0 as int, args@[k].1@, new_args@[k].1@));
                }
            }
            r
        },
        Instruction::Br { cond, true_br, false_br } => {
            let c = read_value(builder, backward_edges, block, cond);
            let r = Instruction::Br {
                cond: c,
                true_br: crate::module::instruction::copy_bytes(true_br),
                false_br: crate::module::instruction::copy_bytes(false_br),
            };
            proof {
                assert(reads(r@)[0] == c@);
            }
            r
        },
        Instruction::Alloc { vreg, num, ty } => {
            let d = define(builder, backward_edges, block, *vreg, *ty, var_types);
            Instruction::Alloc { vreg: d, num: *num, ty: *ty }
        },
        Instruction::Store { ptr, val, ty } => {
            let p = read_value(builder, backward_edges, block, ptr);
            let ghost s1 = builder@;
            let v = read_value(builder, backward_edges, block, val);
            proof {
                lemma_kinds_kept_trans(s0, s1, builder@);
                lemma_defs_kept_trans(s0.defs, s1.defs, builder@.defs);
                lemma_read_ok_back(s0, s1, block.0 as int, val@, v@);
            }
            let r = Instruction::Store { ptr: p, val: v, ty: *ty };
            proof {
                assert(reads(r@)[0] == p@);
                assert(reads(r@)[1] == v@);
                assert(reads(ins@)[1] == val@);
            }
            r
        },
        Instruction::Load { vreg, ptr, ty } => {
            let p = read_value(builder, backward_edges, block, ptr);
            let ghost s1 = builder@;
            let d = define(builder, backward_edges, block, *vreg, *ty, var_types);
            proof {
                lemma_kinds_kept_trans(s0, s1, builder@);
            }
            let r = Instruction::Load { vreg: d, ptr: p, ty: *ty };
            proof {
                assert(reads(r@)[0] == p@);
            }
            r
        },
        Instruction::Offset { vreg, ptr, idx, ty } => {
            let p = read_value(builder, backward_edges, block, ptr);
            let ghost s1 = builder@;
            let d = define(builder, backward_edges, block, *vreg, *ty, var_types);
            proof {
                lemma_kinds_kept_trans(s0, s1, builder@);
            }
            let r = Instruction::Offset { vreg: d, ptr: p, idx: *idx, ty: *ty };
            proof {
                assert(reads(r@)[0] == p@);
            }
            r
        },
        _ => {
            let r = ins.duplicate();
            proof {
                assert(defs_kept(s0.defs, builder@.defs));
                if let InstrV::Phi { srcs, .. } = ins@ {
                    assert(reads(r@) == reads(ins@));
                }
            }
            r
        },
    }
}

/// The operand `v` with its register, if any, replaced by what it stands for.
fn resolve_value(builder: &SsaBuilder, v: &Value) -> (r: Value)
    requires
        exists|backward: Seq<Vec<BlockId>>| #[trigger] builder.inv(backward),
    ensures
        value_shape(v@, r@),
        resolve_keeps(builder@.aliases, v@, r@),
{
    match v {
        Value::Vreg(id) => {
            let x = builder.resolve(SsaValue(*id));
            proof {
                if alias_of(builder@.aliases, SsaValue(*id)) is None {
                    lemma_root_self(builder@.aliases, SsaValue(*id), x);
                }
            }
            Value::Vreg(x.0)
        },
        _ => v.duplicate(),
    }
}

/// The instruction with each register it reads replaced by what it stands for.
fn resolve_instruction(builder: &SsaBuilder, ins: &Instruction) -> (r: Instruction)
    requires
        exists|backward: Seq<Vec<BlockId>>| #[trigger] builder.inv(backward),
    ensures
        same_shape(ins@, r@),
        r@ is Phi ==> ins@ is Phi && r@->Phi_vreg == ins@->Phi_vreg,
        r@.written() == ins@.written(),
        reads(r@).len() == reads(ins@).len(),
        forall|k: int|
            !(ins@ is Phi) && 0 <= k < reads(ins@).len() ==> resolve_keeps(
                builder@.aliases,
                reads(ins@)[k],
                #[trigger] reads(r@)[k],
            ),
{
    match ins {
        Instruction::Ret { val, ty } => {
            let r = Instruction::Ret { val: resolve_value(builder, val), ty: *ty };
            proof {
                assert(reads(ins@).len() == 1 && reads(ins@)[0] == val@);
            }
            r
        },
        Instruction::Copy { vreg, val, ty } => {
            let r = Instruction::Copy { vreg: *vreg, val: resolve_value(builder, val), ty: *ty };
            proof {
                assert(reads(ins@).len() == 1 && reads(ins@)[0] == val@);
            }
            r
        },
        Instruction::Op { vreg, kind, lhs, rhs, ty } => {
            let r = Instruction::Op {
                vreg: *vreg,
                kind: *kind,
                lhs: resolve_value(builder, lhs),
                rhs: resolve_value(builder, rhs),
                ty: *ty,
            };
            proof {
                assert(reads(ins@).len() == 2 && reads(ins@)[0] == lhs@ && reads(ins@)[1] == rhs@);
            }
            r
        },
        Instruction::Call { vreg, func, args, ty, discard_value } => {
            let mut new_args: Vec<(Type, Value)> = Vec::new();
            let mut j: usize = 0;
            while j < args.len()
                invariant
                    exists|backward: Seq<Vec<BlockId>>| #[trigger] builder.inv(backward),
                    j <= args@.len(),
                    new_args@.len() == j,
                    forall|jj: int|
                        0 <= jj < j ==> (#[trigger] new_args@[jj]).0 == args@[jj].0 && value_shape(
                            args@[jj].1@,
                            new_args@[jj].1@,
                        ),
                    forall|jj: int| 0 <= jj < j ==> resolve_keeps(builder@.aliases, args@[jj].1@, (#[trigger] new_args@[jj]).1@),
                decreases args@.len() - j,
            {
                let v = resolve_value(builder, &args[j].1);
                new_args.push((args[j].0, v));
                j = j + 1;
            }
            let r = Instruction::Call {
                vreg: *vreg,
                func: crate::module::instruction::copy_bytes(func),
                args: new_args,
                ty: *ty,
                discard_value: *discard_value,
            };
            proof {
                let a1 = args@.map_values(|a: (Type, Value)| view_arg(a));
                let a2 = new_args@.map_values(|a: (Type, Value)| view_arg(a));
                assert forall|jj: int| 0 <= jj < a1.len() implies (#[trigger] a2[jj]).0 == a1[jj].0 && value_shape(
                    a1[jj].1,
                    a2[jj].1,
                ) by {
                    assert(a1[jj] == view_arg(args@[jj]));
                    assert(a2[jj] == view_arg(new_args@[jj]));
                }
                assert(reads(ins@) == a1.map_values(|a: (Type, ValueV)| a.1));
                assert(reads(r@) == a2.map_values(|a: (Type, ValueV)| a.1));
                assert forall|k: int| 0 <= k < reads(ins@).len() implies resolve_keeps(
                    builder@.aliases,
                    reads(ins@)[k],
                    #[trigger] reads(r@)[k],
                ) by {
                    assert(a1[k] == view_arg(args@[k]));
                    assert(a2[k] == view_arg(new_args@[k]));
                }
            }
            r
        },
        Instruction::Br { cond, true_br, false_br } => {
            let r = Instruction::Br {
                cond: resolve_value(builder, cond),
                true_br: crate::module::instruction::copy_bytes(true_br),
                false_br: crate::module::instruction::copy_bytes(false_br),
            };
            proof {
                assert(reads(ins@).len() == 1 && reads(ins@)[0] == cond@);
            }
            r
        },
        Instruction::Store { ptr, val, ty } => {
            let r = Instruction::Store { ptr: resolve_value(builder, ptr), val: resolve_value(builder, val), ty: *ty };
            proof {
                assert(reads(ins@).len() == 2 && reads(ins@)[0] == ptr@ && reads(ins@)[1] == val@);
            }
            r
        },
        Instruction::Load { vreg, ptr, ty } => {
            let r = Instruction::Load { vreg: *vreg, ptr: resolve_value(builder, ptr), ty: *ty };
            proof {
                assert(reads(ins@).len() == 1 && reads(ins@)[0] == ptr@);
            }
            r
        },
        Instruction::Offset { vreg, ptr, idx, ty } => {
            let r = Instruction::Offset { vreg: *vreg, ptr: resolve_value(builder, ptr), idx: *idx, ty: *ty };
            proof {
                assert(reads(ins@).len() == 1 && reads(ins@)[0] == ptr@);
            }
            r
        },
        Instruction::Phi { vreg, srcs, ty } => {
            let mut new_srcs: Vec<Value> = Vec::new();
            let mut j: usize = 0;
            while j < srcs.len()
                invariant
                    exists|backward: Seq<Vec<BlockId>>| #[trigger] builder.inv(backward),
                    j <= srcs@.len(),
                    new_srcs@.len() == j,
                    forall|jj: int| 0 <= jj < j ==> value_shape(srcs@[jj]@, (#[trigger] new_srcs@[jj])@),
                decreases srcs@.len() - j,
            {
                let v = resolve_value(builder, &srcs[j]);
                new_srcs.push(v);
                j = j + 1;
            }
            let r = Instruction::Phi { vreg: *vreg, srcs: new_srcs, ty: *ty };
            proof {
                let s1 = srcs@.map_values(|v: Value| view_value(v));
                let s2 = new_srcs@.map_values(|v: Value| view_value(v));
                assert forall|jj: int| 0 <= jj < s1.len() implies value_shape(s1[jj], #[trigger] s2[jj]) by {
                    assert(s1[jj] == srcs@[jj]@);
                    assert(s2[jj] == new_srcs@[jj]@);
                }
            }
            r
        },
        _ => ins.duplicate(),
    }
}

/// The type of the last record of register `v` in `records`, if any.
pub open spec fn last_type(records: Seq<(Vreg, Type)>, v: Vreg) -> Option<Type>
    decreases records.len(),
{
    if records.len() == 0 {
        None
    } else if records.last().0 == v {
        Some(records.last().1)
    } else {
        last_type(records.drop_last(), v)
    }
}

/// The type found for a register is the type of a record of that register that no later
/// record of it follows; no type is found only when the register has no record.
pub proof fn lemma_last_type(records: Seq<(Vreg, Type)>, v: Vreg)
    ensures
        last_type(records, v) matches Some(t) ==> exists|i: int|
            0 <= i < records.len() && #[trigger] records[i] == (v, t) && forall|j: int|
                i < j < records.len() ==> (#[trigger] records[j]).0 != v,
        last_type(records, v) is None ==> forall|i: int| 0 <= i < records.len() ==> (#[trigger] records[i]).0 != v,
    decreases records.len(),
{
    if records.len() > 0 {
        let rest = records.drop_last();
        lemma_last_type(rest, v);
        if records.last().0 == v {
            assert(records[records.len() - 1] == (v, records.last().1));
        } else {
            if let Some(t) = last_type(rest, v) {
                let i = choose|i: int|
                    0 <= i < rest.len() && #[trigger] rest[i] == (v, t) && forall|j: int|
                        i < j < rest.len() ==> (#[trigger] rest[j]).0 != v;
                assert(records[i] == rest[i]);
                assert forall|j: int| i < j < records.len() implies (#[trigger] records[j]).0 != v by {
                    if j < rest.len() {
                        assert(records[j] == rest[j]);
                    }
                }
            } else {
                assert forall|i: int| 0 <= i < records.len() implies (#[trigger] records[i]).0 != v by {
                    if i < rest.len() {
                        assert(records[i] == rest[i]);
                    }
                }
            }
        }
    }
}

/// The type last recorded for register `vreg`, if any: the type of a record of `vreg` that no
/// later record of `vreg` follows, and none when `vreg` has no record.
fn lookup_type(var_types: &Vec<(Vreg, Type)>, vreg: Vreg) -> (r: Option<Type>)
    ensures
        r == last_type(var_types@, vreg),
        r matches Some(t) ==> exists|i: int|
            0 <= i < var_types@.len() && #[trigger] var_types@[i] == (vreg, t) && forall|j: int|
                i < j < var_types@.len() ==> (#[trigger] var_types@[j]).0 != vreg,
        r is None ==> forall|i: int| 0 <= i < var_types@.len() ==> (#[trigger] var_types@[i]).0 != vreg,
{
    proof {
        lemma_last_type(var_types@, vreg);
        assert(var_types@.take(var_types@.len() as int) =~= var_types@);
    }
    let mut i: usize = var_types.len();
    while i > 0
        invariant
            i <= var_types@.len(),
            last_type(var_types@.take(i as int), vreg) == last_type(var_types@, vreg),
        decreases i,
    {
        proof {
            lemma_last_type(var_types@, vreg);
            assert(var_types@.take(i as int).drop_last() =~= var_types@.take(i - 1));
            assert(var_types@.take(i as int).last() == var_types@[i - 1]);
        }
        if var_types[i - 1].0 == vreg {
            return Some(var_types[i - 1].1);
        }
        i = i - 1;
    }
    proof {
        assert(var_types@.take(0) =~= Seq::<(Vreg, Type)>::empty());
    }
    None
}


/// Phi nodes were added only to blocks with at least two predecessors.
pub open spec fn phis_at_joins(old: CfgV, new: CfgV) -> bool {
    forall|b: int|
        0 <= b < old.len() && (#[trigger] new.blocks[b]).instructions.len() > old.blocks[b].instructions.len()
            ==> old.backward[b].len() >= 2
}

/// Converts the graph into SSA form: every assignment writes a fresh value, every use reads
/// the value that reaches it, and phi nodes (with one source per predecessor, first in their
/// block) merge values where control flow meets. Blocks are renamed in reverse post order,
/// from the entry, where the parameters hold the values of their own numbers; blocks that
/// cannot be reached from the entry keep their registers. `param_types` lists the
/// parameters and their types (for a register listed twice, the later type counts).
///
/// Phi nodes are added only to blocks with at least two predecessors. When the graph had no
/// phi node, the result is in single assignment form over a set of blocks that holds every
/// block reachable from the entry: no two assignments there (a call whose value is discarded
/// counts as one), nor any two phi nodes, write the same register, and none writes a
/// parameter's register; and in those blocks, an operand whose register was assigned earlier
/// in the same block reads the fresh register of the last such assignment.
pub fn build_ssa(cfg: &mut ControlFlowGraph, param_types: &Vec<(Vreg, Type)>)
    requires
        old(cfg)@.wf(),
        old(cfg)@.len() > 0,
        forall|i: int| 0 <= i < param_types@.len() ==> (#[trigger] param_types@[i]).0.0 < usize::MAX,
    ensures
        ssa_form_of(old(cfg)@, final(cfg)@),
        phis_at_joins(old(cfg)@, final(cfg)@),
        phi_free(old(cfg)@) ==> param_reads(old(cfg)@, final(cfg)@, param_types@),
        phi_free(old(cfg)@) ==> exists|r: Set<int>|
            closed_from_entry(final(cfg)@, r) && #[trigger] single_assignment(final(cfg)@, r, param_types@)
                && local_reads(old(cfg)@, final(cfg)@, r),
{
    let ghost g0 = cfg@;
    let ghost bw = cfg.backward_edges@;
    let nb = cfg.blocks.len();
    proof {
        assert forall|i: int, j: int| 0 <= i < bw.len() && 0 <= j < bw[i]@.len() implies (#[trigger] bw[i]@[j]).0
            < bw.len() by {
            assert(g0.backward[i] == bw[i]@);
        }
    }
    let mut builder = SsaBuilder::new(nb);
    let mut var_types: Vec<(Vreg, Type)> = Vec::new();
    let mut i: usize = 0;
    while i < param_types.len()
        invariant
            i <= param_types@.len(),
        decreases param_types@.len() - i,
    {
        var_types.push(param_types[i]);
        i = i + 1;
    }
    let rpo = cfg.compute_rpo();
    // values up to the largest parameter register stand for the parameters
    let mut max_param: Option<usize> = None;
    let mut i: usize = 0;
    while i < param_types.len()
        invariant
            i <= param_types@.len(),
            forall|k: int| 0 <= k < param_types@.len() ==> (#[trigger] param_types@[k]).0.0 < usize::MAX,
            max_param matches Some(m) ==> m < usize::MAX,
            max_param matches Some(m) ==> forall|k: int| 0 <= k < i ==> (#[trigger] param_types@[k]).0.0 <= m,
            max_param is None ==> i == 0,
        decreases param_types@.len() - i,
    {
        let v = param_types[i].0.0;
        match max_param {
            Some(m) => {
                if v > m {
                    max_param = Some(v);
                }
            },
            None => {
                max_param = Some(v);
            },
        }
        i = i + 1;
    }
    if let Some(m) = max_param {
        while builder.next_value_id < m + 1
            invariant
                builder.inv(bw),
                phis_wide(builder@),
                m < usize::MAX,
                builder@.next <= m + 1,
                forall|x: int| 0 <= x < builder@.next ==> !(#[trigger] builder@.made_phi[x]),
            decreases m + 1 - builder.next_value_id,
        {
            builder.new_value();
        }
    }
    // the values below `floor` stand for the parameters
    let ghost floor: usize = builder@.next;
    proof {
        assert forall|k: int| 0 <= k < param_types@.len() implies (#[trigger] param_types@[k]).0.0 < floor by {
            assert(max_param is Some);
        }
    }
    let entry = rpo[0];
    let mut i: usize = 0;
    while i < param_types.len()
        invariant
            builder.inv(bw),
            phis_wide(builder@),
            entry.0 < bw.len(),
            i <= param_types@.len(),
            builder@.next == floor,
            forall|x: int| 0 <= x < floor ==> !(#[trigger] builder@.made_phi[x]),
            entry == BlockId(0),
            forall|v: usize|
                #[trigger] is_param(param_types@.take(i as int), v) ==> assoc_get(builder@.defs[0], Vreg(v)) == Some(
                    SsaValue(v),
                ),
        decreases param_types@.len() - i,
    {
        let vreg = param_types[i].0;
        let ghost d0 = builder@.defs[0];
        builder.write_variable(entry, vreg, SsaValue(vreg.0));
        proof {
            assert forall|v: usize| #[trigger] is_param(param_types@.take(i + 1), v) implies assoc_get(
                builder@.defs[0],
                Vreg(v),
            ) == Some(SsaValue(v)) by {
                lemma_assoc_push(d0, vreg, SsaValue(vreg.0), Vreg(v));
                let j = choose|j: int| 0 <= j < param_types@.take(i + 1).len() && (#[trigger] param_types@.take(i + 1)[j]).0.0 == v;
                if j < i {
                    assert(param_types@.take(i as int)[j] == param_types@.take(i + 1)[j]);
                    assert(is_param(param_types@.take(i as int), v));
                }
            }
        }
        i = i + 1;
    }
    proof {
        assert(param_types@.take(param_types@.len() as int) =~= param_types@);
        assert forall|v: usize| #[trigger] is_param(param_types@, v) implies v < floor by {
            let j = choose|j: int| 0 <= j < param_types@.len() && param_types@[j].0.0 == v;
            assert(param_types@[j].0.0 < floor);
        }
    }
    let mut processed: Vec<bool> = Vec::new();
    let mut i: usize = 0;
    while i < nb
        invariant
            i <= nb,
            processed@.len() == i,
        decreases nb - i,
    {
        processed.push(false);
        i = i + 1;
    }
    // rename the blocks in reverse post order; `done` holds the blocks renamed so far, and
    // `owner` the place of each register they assign
    let ghost mut done: Set<int> = Set::empty();
    let ghost mut owner: Map<usize, (int, int)> = Map::empty();
    let ghost pf = phi_free(g0);
    let mut r: usize = 0;
    while r < rpo.len()
        invariant
            nb == g0.len(),
            bw == cfg.backward_edges@,
            bw.len() == nb,
            builder.inv(bw),
            phis_wide(builder@),
            processed@.len() == nb,
            forall|k: int| 0 <= k < rpo@.len() ==> (#[trigger] rpo@[k]).0 < nb,
            rpo@.no_duplicates(),
            cfg@.wf(),
            cfg@.len() == nb,
            cfg@.forward == g0.forward,
            cfg@.backward == g0.backward,
            forall|b: int| 0 <= b < nb ==> same_shapes(g0.blocks[b].instructions, #[trigger] cfg@.blocks[b].instructions),
            r <= rpo@.len(),
            floor <= builder@.next,
            forall|x: int| 0 <= x < floor ==> !(#[trigger] builder@.made_phi[x]),
            forall|k: int| 0 <= k < r ==> done.contains((#[trigger] rpo@[k]).0 as int),
            forall|k: int| r <= k < rpo@.len() ==> !done.contains((#[trigger] rpo@[k]).0 as int),
            forall|b: int|
                #[trigger] done.contains(b) ==> 0 <= b < nb && exists|k: int| 0 <= k < rpo@.len() && rpo@[k].0 == b,
            forall|b: int, j: int|
                done.contains(b) && 0 <= j < cfg@.blocks[b].instructions.len() && !(
                #[trigger] cfg@.blocks[b].instructions[j] is Phi) ==> owned_write(cfg@, builder@, floor, owner, b, j),
            forall|bb: int| 0 <= bb < nb && !done.contains(bb) ==> #[trigger] cfg@.blocks[bb] == g0.blocks[bb],
            pf == phi_free(g0),
            pf ==> forall|bb: int, i: int, k: int|
                done.contains(bb) && #[trigger] local_read_at(g0, bb, i, k) ==> reads(cfg@.blocks[bb].instructions[i])[k]
                    == ValueV::Vreg(
                    cfg@.blocks[bb].instructions[last_write_before(
                        g0.blocks[bb].instructions,
                        i,
                        reg_of(reads(g0.blocks[bb].instructions[i])[k]),
                    ).unwrap()].written().unwrap(),
                ),
            rpo@[0] == BlockId(0),
            rpo@.len() > 0,
            forall|v: usize| #[trigger] is_param(param_types@, v) ==> v < floor,
            !done.contains(0) ==> forall|v: usize|
                #[trigger] is_param(param_types@, v) ==> assoc_get(builder@.defs[0], Vreg(v)) == Some(SsaValue(v)),
            pf && done.contains(0) ==> forall|i: int, k: int|
                #[trigger] param_read_at(g0, param_types@, i, k) ==> reads(cfg@.blocks[0].instructions[i])[k] == reads(
                    g0.blocks[0].instructions[i],
                )[k],
        decreases rpo@.len() - r,
    {
        let b = rpo[r];
        proof {
            assert(!done.contains(b.0 as int));
        }
        let mut all_preds_processed = true;
        let mut k: usize = 0;
        while k < cfg.backward_edges[b.0].len()
            invariant
                b.0 < nb,
                bw == cfg.backward_edges@,
                bw.len() == nb,
                edges_in_range(bw),
                processed@.len() == nb,
                k <= bw[b.0 as int]@.len(),
            decreases bw[b.0 as int]@.len() - k,
        {
            let pred = cfg.backward_edges[b.0][k];
            proof {
                assert(bw[b.0 as int]@[k as int] == pred);
            }
            if !processed[pred.0] {
                all_preds_processed = false;
            }
            k = k + 1;
        }
        if all_preds_processed {
            let ghost s_seal = builder@;
            builder.seal_block(cfg.backward_edges.as_slice(), b);
            proof {
                assert forall|bb: int, j: int|
                    done.contains(bb) && 0 <= j < cfg@.blocks[bb].instructions.len() && !(
                    #[trigger] cfg@.blocks[bb].instructions[j] is Phi) implies owned_write(cfg@, builder@, floor, owner, bb, j) by {
                    assert(owned_write(cfg@, s_seal, floor, owner, bb, j));
                    if let Some(w) = cfg@.blocks[bb].instructions[j].written() {
                        assert(builder@.made_phi[w as int] == s_seal.made_phi[w as int]);
                    }
                }
                assert forall|x: int| 0 <= x < floor implies !(#[trigger] builder@.made_phi[x]) by {
                    assert(builder@.made_phi[x] == s_seal.made_phi[x]);
                }
                if !done.contains(0) {
                    assert forall|v: usize| #[trigger] is_param(param_types@, v) implies assoc_get(builder@.defs[0], Vreg(v))
                        == Some(SsaValue(v)) by {
                        assert(assoc_get(s_seal.defs[0], Vreg(v)) == Some(SsaValue(v)));
                    }
                }
            }
        }
        proof {
            if r > 0 {
                assert(done.contains(rpo@[0].0 as int));
            }
        }
        let n_ins = cfg.blocks[b.0].instructions.len();
        let mut i: usize = 0;
        while i < n_ins
            invariant
                nb == g0.len(),
                b.0 < nb,
                bw == cfg.backward_edges@,
                bw.len() == nb,
                builder.inv(bw),
                phis_wide(builder@),
                cfg@.wf(),
                cfg@.len() == nb,
                cfg@.forward == g0.forward,
                cfg@.backward == g0.backward,
                n_ins == cfg@.blocks[b.0 as int].instructions.len(),
                forall|bb: int|
                    0 <= bb < nb ==> same_shapes(g0.blocks[bb].instructions, #[trigger] cfg@.blocks[bb].instructions),
                i <= n_ins,
                floor <= builder@.next,
                forall|x: int| 0 <= x < floor ==> !(#[trigger] builder@.made_phi[x]),
                !done.contains(b.0 as int),
                forall|bb: int| #[trigger] done.contains(bb) ==> 0 <= bb < nb,
                forall|bb: int, j: int|
                    done.contains(bb) && 0 <= j < cfg@.blocks[bb].instructions.len() && !(
                    #[trigger] cfg@.blocks[bb].instructions[j] is Phi) ==> owned_write(cfg@, builder@, floor, owner, bb, j),
                forall|j: int|
                    0 <= j < i && !(#[trigger] cfg@.blocks[b.0 as int].instructions[j] is Phi) ==> owned_write(
                        cfg@,
                        builder@,
                        floor,
                        owner,
                        b.0 as int,
                        j,
                    ),
                forall|bb: int| 0 <= bb < nb && !done.contains(bb) && bb != b.0 ==> #[trigger] cfg@.blocks[bb] == g0.blocks[bb],
                forall|j: int| i <= j < n_ins ==> #[trigger] cfg@.blocks[b.0 as int].instructions[j] == g0.blocks[b.0 as int].instructions[j],
                g0.blocks[b.0 as int].instructions.len() == n_ins,
                pf == phi_free(g0),
                pf ==> forall|bb: int, ii: int, k: int|
                    done.contains(bb) && #[trigger] local_read_at(g0, bb, ii, k) ==> reads(cfg@.blocks[bb].instructions[ii])[k]
                        == ValueV::Vreg(
                        cfg@.blocks[bb].instructions[last_write_before(
                            g0.blocks[bb].instructions,
                            ii,
                            reg_of(reads(g0.blocks[bb].instructions[ii])[k]),
                        ).unwrap()].written().unwrap(),
                    ),
                pf ==> forall|ii: int, k: int|
                    0 <= ii < i && #[trigger] local_read_at(g0, b.0 as int, ii, k) ==> reads(
                        cfg@.blocks[b.0 as int].instructions[ii],
                    )[k] == ValueV::Vreg(
                        cfg@.blocks[b.0 as int].instructions[last_write_before(
                            g0.blocks[b.0 as int].instructions,
                            ii,
                            reg_of(reads(g0.blocks[b.0 as int].instructions[ii])[k]),
                        ).unwrap()].written().unwrap(),
                    ),
                forall|v: usize| #[trigger] is_param(param_types@, v) ==> v < floor,
                b.0 == 0 ==> !done.contains(0),
                b.0 != 0 ==> done.contains(0),
                pf && b.0 == 0 ==> forall|v: usize|
                    #[trigger] is_param(param_types@, v) && last_write_before(g0.blocks[0].instructions, i as int, v) is None
                        ==> assoc_get(builder@.defs[0], Vreg(v)) == Some(SsaValue(v)),
                pf && b.0 == 0 ==> forall|ii: int, k: int|
                    0 <= ii < i && #[trigger] param_read_at(g0, param_types@, ii, k) ==> reads(cfg@.blocks[0].instructions[ii])[k]
                        == reads(g0.blocks[0].instructions[ii])[k],
                pf && b.0 != 0 ==> forall|ii: int, k: int|
                    #[trigger] param_read_at(g0, param_types@, ii, k) ==> reads(cfg@.blocks[0].instructions[ii])[k] == reads(
                        g0.blocks[0].instructions[ii],
                    )[k],
                pf ==> forall|v: usize|
                    #[trigger] last_write_before(g0.blocks[b.0 as int].instructions, i as int, v) matches Some(j) ==> (
                    cfg@.blocks[b.0 as int].instructions[j].written() is Some && assoc_get(
                        builder@.defs[b.0 as int],
                        Vreg(v),
                    ) == Some(SsaValue(cfg@.blocks[b.0 as int].instructions[j].written().unwrap()))),
            decreases n_ins - i,
        {
            proof {
                assert(cfg@.blocks[b.0 as int].instructions == view_instrs(cfg.blocks@[b.0 as int].instructions@));
            }
            let ghost s_ren = builder@;
            let ghost owner0 = owner;
            let new_ins = rename_instruction(
                &mut builder,
                cfg.backward_edges.as_slice(),
                b,
                &cfg.blocks[b.0].instructions[i],
                &mut var_types,
            );
            let ghost before = cfg@;
            let ghost old_ins = cfg.blocks@[b.0 as int].instructions@[i as int]@;
            cfg.blocks[b.0].instructions.set(i, new_ins);
            proof {
                if let Some(w) = new_ins@.written() {
                    if !(new_ins@ is Phi) {
                        owner = owner.insert(w, (b.0 as int, i as int));
                    }
                }
                assert(cfg@.blocks[b.0 as int].instructions =~= before.blocks[b.0 as int].instructions.update(
                    i as int,
                    new_ins@,
                ));
                assert forall|bb: int| 0 <= bb < nb implies same_shapes(
                    g0.blocks[bb].instructions,
                    #[trigger] cfg@.blocks[bb].instructions,
                ) by {
                    if bb == b.0 {
                        let o = g0.blocks[bb].instructions;
                        let c = cfg@.blocks[bb].instructions;
                        assert forall|j: int| 0 <= j < o.len() implies same_shape(o[j], #[trigger] c[j]) by {
                            if j == i {
                                assert(same_shape(o[j], before.blocks[bb].instructions[j]));
                                assert(before.blocks[bb].instructions[j] == old_ins);
                                lemma_same_shape_trans(o[j], old_ins, new_ins@);
                            } else {
                                assert(c[j] == before.blocks[bb].instructions[j]);
                            }
                        }
                    } else {
                        assert(cfg@.blocks[bb] == before.blocks[bb]);
                    }
                }
                assert(cfg@.forward =~= before.forward);
                assert(cfg@.backward =~= before.backward);
                assert forall|bb: int| 0 <= bb < nb implies (#[trigger] cfg@.blocks[bb]).id == BlockId(bb as usize) by {
                    assert(cfg@.blocks[bb].id == before.blocks[bb].id);
                }
                assert(cfg@.blocks[b.0 as int].instructions[i as int] == new_ins@);
                assert(same_shape(old_ins, new_ins@));
                assert(!(new_ins@ is Phi) ==> !(old_ins is Phi));
                // the places assigned before keep their registers, which are older than the new one
                assert forall|bb: int, j: int|
                    0 <= bb < nb && 0 <= j < cfg@.blocks[bb].instructions.len() && (bb != b.0 || j != i) && !(
                    #[trigger] cfg@.blocks[bb].instructions[j] is Phi) && owned_write(before, s_ren, floor, owner0, bb, j)
                    implies owned_write(cfg@, builder@, floor, owner, bb, j) by {
                    assert(cfg@.blocks[bb].instructions[j] == before.blocks[bb].instructions[j]);
                    if let Some(w) = cfg@.blocks[bb].instructions[j].written() {
                        assert(builder@.made_phi[w as int] == s_ren.made_phi[w as int]);
                        if let Some(w2) = new_ins@.written() {
                            if !(new_ins@ is Phi) {
                                assert(w < w2);
                            }
                        }
                    }
                }
                assert forall|bb: int, j: int|
                    done.contains(bb) && 0 <= j < cfg@.blocks[bb].instructions.len() && !(
                    #[trigger] cfg@.blocks[bb].instructions[j] is Phi) implies owned_write(cfg@, builder@, floor, owner, bb, j) by {
                    assert(bb != b.0);
                    assert(cfg@.blocks[bb] == before.blocks[bb]);
                    assert(cfg@.blocks[bb].instructions[j] == before.blocks[bb].instructions[j]);
                    assert(owned_write(before, s_ren, floor, owner0, bb, j));
                }
                assert forall|j: int|
                    0 <= j < i + 1 && !(#[trigger] cfg@.blocks[b.0 as int].instructions[j] is Phi) implies owned_write(
                    cfg@,
                    builder@,
                    floor,
                    owner,
                    b.0 as int,
                    j,
                ) by {
                    if j < i {
                        assert(cfg@.blocks[b.0 as int].instructions[j] == before.blocks[b.0 as int].instructions[j]);
                        assert(owned_write(before, s_ren, floor, owner0, b.0 as int, j));
                    }
                }
                assert forall|x: int| 0 <= x < floor implies !(#[trigger] builder@.made_phi[x]) by {
                    assert(builder@.made_phi[x] == s_ren.made_phi[x]);
                }
                assert forall|bb: int| 0 <= bb < nb && !done.contains(bb) && bb != b.0 implies #[trigger] cfg@.blocks[bb]
                    == g0.blocks[bb] by {
                    assert(cfg@.blocks[bb] == before.blocks[bb]);
                }
                if pf {
                    let bi = b.0 as int;
                    let s0b = g0.blocks[bi].instructions;
                    assert(before.blocks[bi].instructions[i as int] == old_ins);
                    assert(old_ins == s0b[i as int]);
                    assert(!(old_ins is Phi));
                    assert forall|v: usize| #[trigger] last_write_before(s0b, i + 1, v) is Some implies ({
                        let j = last_write_before(s0b, i + 1, v).unwrap();
                        cfg@.blocks[bi].instructions[j].written() is Some && assoc_get(builder@.defs[bi], Vreg(v)) == Some(
                            SsaValue(cfg@.blocks[bi].instructions[j].written().unwrap()),
                        )
                    }) by {
                        if s0b[i as int].written() == Some(v) {
                            assert(last_write_before(s0b, i + 1, v) == Some(i as int));
                            assert(cfg@.blocks[bi].instructions[i as int] == new_ins@);
                        } else {
                            assert(last_write_before(s0b, i + 1, v) == last_write_before(s0b, i as int, v));
                            if let Some(j) = last_write_before(s0b, i as int, v) {
                                lemma_last_write_bound(s0b, i as int, v);
                                assert(assoc_get(s_ren.defs[bi], Vreg(v)) is Some);
                                assert(cfg@.blocks[bi].instructions[j] == before.blocks[bi].instructions[j]);
                            }
                        }
                    }
                    assert forall|ii: int, k: int|
                        0 <= ii < i + 1 && #[trigger] local_read_at(g0, bi, ii, k) implies reads(cfg@.blocks[bi].instructions[ii])[k]
                        == ValueV::Vreg(
                        cfg@.blocks[bi].instructions[last_write_before(s0b, ii, reg_of(reads(s0b[ii])[k])).unwrap()].written().unwrap(),
                    ) by {
                        let v = reg_of(reads(s0b[ii])[k]);
                        lemma_last_write_bound(s0b, ii, v);
                        let j = last_write_before(s0b, ii, v).unwrap();
                        assert(cfg@.blocks[bi].instructions[j] == before.blocks[bi].instructions[j]);
                        if ii < i {
                            assert(cfg@.blocks[bi].instructions[ii] == before.blocks[bi].instructions[ii]);
                        } else {
                            assert(ii == i);
                            assert(same_shape(s0b[j], before.blocks[bi].instructions[j]));
                            assert(!(before.blocks[bi].instructions[j] is Phi));
                            assert(owned_write(before, s_ren, floor, owner0, bi, j));
                            assert(read_ok(s_ren, bi, reads(old_ins)[k], reads(new_ins@)[k]));
                            assert(cfg@.blocks[bi].instructions[ii] == new_ins@);
                        }
                    }
                    if bi == 0 {
                        assert forall|v: usize|
                            #[trigger] is_param(param_types@, v) && last_write_before(s0b, i + 1, v) is None implies assoc_get(
                            builder@.defs[0],
                            Vreg(v),
                        ) == Some(SsaValue(v)) by {
                            assert(s0b[i as int].written() != Some(v));
                            assert(last_write_before(s0b, i + 1, v) == last_write_before(s0b, i as int, v));
                            assert(assoc_get(s_ren.defs[0], Vreg(v)) == Some(SsaValue(v)));
                        }
                        assert forall|ii: int, k: int|
                            0 <= ii < i + 1 && #[trigger] param_read_at(g0, param_types@, ii, k) implies reads(
                            cfg@.blocks[0].instructions[ii],
                        )[k] == reads(s0b[ii])[k] by {
                            if ii < i {
                                assert(cfg@.blocks[0].instructions[ii] == before.blocks[0].instructions[ii]);
                            } else {
                                let v = reg_of(reads(s0b[ii])[k]);
                                assert(assoc_get(s_ren.defs[0], Vreg(v)) == Some(SsaValue(v)));
                                assert(v < floor);
                                assert(!s_ren.made_phi[v as int]);
                                assert(read_ok(s_ren, bi, reads(old_ins)[k], reads(new_ins@)[k]));
                                assert(cfg@.blocks[bi].instructions[ii] == new_ins@);
                            }
                        }
                    } else {
                        assert forall|ii: int, k: int| #[trigger] param_read_at(g0, param_types@, ii, k) implies reads(
                            cfg@.blocks[0].instructions[ii],
                        )[k] == reads(g0.blocks[0].instructions[ii])[k] by {
                            assert(cfg@.blocks[0] == before.blocks[0]);
                        }
                    }
                }
            }
            i = i + 1;
        }
        proof {
            if pf && b.0 == 0 {
                assert forall|ii: int, k: int| #[trigger] param_read_at(g0, param_types@, ii, k) implies reads(
                    cfg@.blocks[0].instructions[ii],
                )[k] == reads(g0.blocks[0].instructions[ii])[k] by {
                    assert(0 <= ii < n_ins);
                }
            }
        }
        processed.set(b.0, true);
        proof {
            done = done.insert(b.0 as int);
            assert forall|k: int| r + 1 <= k < rpo@.len() implies !done.contains((#[trigger] rpo@[k]).0 as int) by {
                assert(rpo@[k] != rpo@[r as int]);
            }
        }
        r = r + 1;
    }
    // seal the blocks that are left
    let ghost g1 = cfg@;
    let mut r: usize = 0;
    while r < rpo.len()
        invariant
            bw.len() == nb,
            builder.inv(bw),
            phis_wide(builder@),
            bw == cfg.backward_edges@,
            forall|k: int| 0 <= k < rpo@.len() ==> (#[trigger] rpo@[k]).0 < nb,
            r <= rpo@.len(),
            g1 == cfg@,
            floor <= builder@.next,
            forall|x: int| 0 <= x < floor ==> !(#[trigger] builder@.made_phi[x]),
            forall|b: int, j: int|
                done.contains(b) && 0 <= j < g1.blocks[b].instructions.len() && !(
                #[trigger] g1.blocks[b].instructions[j] is Phi) ==> owned_write(g1, builder@, floor, owner, b, j),
        decreases rpo@.len() - r,
    {
        let b = rpo[r];
        if !builder.sealed_blocks[b.0] {
            let ghost s_seal = builder@;
            builder.seal_block(cfg.backward_edges.as_slice(), b);
            proof {
                assert forall|bb: int, j: int|
                    done.contains(bb) && 0 <= j < g1.blocks[bb].instructions.len() && !(
                    #[trigger] g1.blocks[bb].instructions[j] is Phi) implies owned_write(g1, builder@, floor, owner, bb, j) by {
                    assert(owned_write(g1, s_seal, floor, owner, bb, j));
                    if let Some(w) = g1.blocks[bb].instructions[j].written() {
                        assert(builder@.made_phi[w as int] == s_seal.made_phi[w as int]);
                    }
                }
                assert forall|x: int| 0 <= x < floor implies !(#[trigger] builder@.made_phi[x]) by {
                    assert(builder@.made_phi[x] == s_seal.made_phi[x]);
                }
            }
        }
        r = r + 1;
    }
    let ghost sf = builder@;
    let ghost mut phi_owner: Map<usize, (int, int)> = Map::empty();
    // gather the phi nodes that stayed, per block
    let mut block_phis: Vec<Vec<Instruction>> = Vec::new();
    let mut i: usize = 0;
    while i < nb
        invariant
            i <= nb,
            block_phis@.len() == i,
            forall|bb: int| 0 <= bb < i ==> (#[trigger] block_phis@[bb])@.len() == 0,
        decreases nb - i,
    {
        block_phis.push(Vec::new());
        i = i + 1;
    }
    let mut p: usize = 0;
    while p < builder.phi_nodes.len()
        invariant
            bw.len() == nb,
            builder.inv(bw),
            phis_wide(builder@),
            block_phis@.len() == nb,
            forall|bb: int, j: int|
                0 <= bb < nb && 0 <= j < block_phis@[bb]@.len() ==> (#[trigger] block_phis@[bb]@[j])@ is Phi
                    && block_phis@[bb]@[j]@->Phi_srcs.len() == bw[bb]@.len() && bw[bb]@.len() >= 2,
            p <= builder@.next,
            builder@ == sf,
            forall|bb: int, j: int|
                0 <= bb < nb && 0 <= j < block_phis@[bb]@.len() ==> {
                    let v = (#[trigger] block_phis@[bb]@[j])@->Phi_vreg;
                    &&& v < p
                    &&& sf.made_phi[v as int]
                    &&& phi_owner.contains_key(v)
                    &&& phi_owner[v] == (bb, j)
                },
        decreases builder@.next - p,
    {
        if let Some(node) = &builder.phi_nodes[p] {
            if builder.resolve(SsaValue(p)) == SsaValue(p) {
                proof {
                    assert(builder@.phis[p as int] == Some(node@));
                }
                let ty = match lookup_type(&var_types, node.vreg) {
                    Some(t) => t,
                    None => Type::I32,
                };
                let mut srcs: Vec<Value> = Vec::new();
                let mut j: usize = 0;
                while j < node.operands.len()
                    invariant
                        builder.inv(bw),
                        phis_wide(builder@),
                        j <= node.operands@.len(),
                        srcs@.len() == j,
                    decreases node.operands@.len() - j,
                {
                    let v = builder.resolve(node.operands[j]);
                    srcs.push(Value::Vreg(v.0));
                    j = j + 1;
                }
                let phi = Instruction::Phi { vreg: p, srcs, ty };
                let blk = node.block.0;
                let ghost before = block_phis@;
                block_phis[blk].push(phi);
                proof {
                    let pos = before[blk as int]@.len() as int;
                    phi_owner = phi_owner.insert(p, (blk as int, pos));
                    assert(sf.made_phi[p as int]);
                    assert forall|bb: int, j: int| 0 <= bb < nb && 0 <= j < block_phis@[bb]@.len() implies {
                        let v = (#[trigger] block_phis@[bb]@[j])@->Phi_vreg;
                        &&& v < p + 1
                        &&& sf.made_phi[v as int]
                        &&& phi_owner.contains_key(v)
                        &&& phi_owner[v] == (bb, j)
                    } by {
                        if bb == blk && j == pos {
                        } else {
                            assert(block_phis@[bb]@[j] == before[bb]@[j]);
                        }
                    }
                    assert(phi@->Phi_srcs.len() == srcs@.len());
                    assert(node@.operands.len() >= 2);
                    assert forall|bb: int, j: int| 0 <= bb < nb && 0 <= j < block_phis@[bb]@.len() implies (
                    #[trigger] block_phis@[bb]@[j])@ is Phi && block_phis@[bb]@[j]@->Phi_srcs.len() == bw[bb]@.len()
                        && bw[bb]@.len() >= 2 by {
                        if bb == blk && j == before[bb]@.len() {
                        } else {
                            assert(block_phis@[bb]@[j] == before[bb]@[j]);
                        }
                    }
                }
            }
        }
        p = p + 1;
    }
    // put the phi nodes first in their blocks
    let ghost pv = block_phis@.map_values(|v: Vec<Instruction>| view_instrs(v@));
    let mut b: usize = 0;
    while b < nb
        invariant
            pv == block_phis@.map_values(|v: Vec<Instruction>| view_instrs(v@)),
            g1.len() == nb,
            forall|bb: int| 0 <= bb < b ==> (#[trigger] cfg@.blocks[bb]).instructions == pv[bb] + g1.blocks[bb].instructions,
            forall|bb: int| b <= bb < nb ==> (#[trigger] cfg@.blocks[bb]).instructions == g1.blocks[bb].instructions,
            nb == g0.len(),
            bw.len() == nb,
            bw == cfg.backward_edges@,
            block_phis@.len() == nb,
            forall|bb: int, j: int|
                0 <= bb < nb && 0 <= j < block_phis@[bb]@.len() ==> (#[trigger] block_phis@[bb]@[j])@ is Phi
                    && block_phis@[bb]@[j]@->Phi_srcs.len() == bw[bb]@.len() && bw[bb]@.len() >= 2,
            cfg@.wf(),
            cfg@.len() == nb,
            cfg@.forward == g0.forward,
            cfg@.backward == g0.backward,
            forall|bb: int|
                0 <= bb < b ==> ssa_block(g0.blocks[bb].instructions, #[trigger] cfg@.blocks[bb].instructions, g0.backward[bb].len()),
            forall|bb: int|
                b <= bb < nb ==> same_shapes(g0.blocks[bb].instructions, #[trigger] cfg@.blocks[bb].instructions),
            forall|bb: int|
                0 <= bb < b && (#[trigger] cfg@.blocks[bb]).instructions.len() > g0.blocks[bb].instructions.len()
                    ==> g0.backward[bb].len() >= 2,
            b <= nb,
        decreases nb - b,
    {
        proof {
            assert(g0.backward[b as int] == bw[b as int]@);
        }
        let phis = &block_phis[b];
        let mut new_ins: Vec<Instruction> = Vec::new();
        let mut j: usize = 0;
        while j < phis.len()
            invariant
                j <= phis@.len(),
                new_ins@.len() == j,
                forall|jj: int| 0 <= jj < phis@.len() ==> (#[trigger] phis@[jj])@ is Phi && phis@[jj]@->Phi_srcs.len() == bw[b as int]@.len(),
                forall|jj: int| 0 <= jj < j ==> (#[trigger] new_ins@[jj])@ is Phi && new_ins@[jj]@->Phi_srcs.len() == bw[b as int]@.len(),
                forall|jj: int| 0 <= jj < j ==> (#[trigger] new_ins@[jj])@ == phis@[jj]@,
            decreases phis@.len() - j,
        {
            new_ins.push(phis[j].duplicate());
            j = j + 1;
        }
        let k = new_ins.len();
        let old_block = &cfg.blocks[b].instructions;
        let ghost ob = view_instrs(old_block@);
        proof {
            assert(ob == cfg@.blocks[b as int].instructions);
        }
        let mut j: usize = 0;
        while j < old_block.len()
            invariant
                k <= new_ins@.len(),
                new_ins@.len() == k + j,
                j <= old_block@.len(),
                ob == view_instrs(old_block@),
                forall|jj: int| 0 <= jj < k ==> (#[trigger] new_ins@[jj])@ is Phi && new_ins@[jj]@->Phi_srcs.len() == bw[b as int]@.len(),
                forall|jj: int| 0 <= jj < k ==> (#[trigger] new_ins@[jj])@ == phis@[jj]@,
                forall|jj: int| 0 <= jj < j ==> (#[trigger] new_ins@[k + jj])@ == ob[jj],
            decreases old_block@.len() - j,
        {
            new_ins.push(old_block[j].duplicate());
            j = j + 1;
        }
        let ghost before = cfg@;
        cfg.blocks[b].instructions = new_ins;
        proof {
            let nv = cfg@.blocks[b as int].instructions;
            assert(nv == view_instrs(new_ins@));
            assert(nv.len() - ob.len() == k);
            assert(new_ins@.len() == k + ob.len());
            assert forall|jj: int| 0 <= jj < ob.len() implies nv.skip(k as int)[jj] == ob[jj] by {
                assert(nv[k + jj] == new_ins@[k + jj]@);
            }
            assert(nv.skip(k as int) =~= ob);
            assert forall|i: int| 0 <= i < k implies (#[trigger] nv[i]) is Phi && nv[i]->Phi_srcs.len() == g0.backward[b as int].len() by {
                assert(nv[i] == new_ins@[i]@);
            }
            assert(ssa_block(g0.blocks[b as int].instructions, nv, g0.backward[b as int].len()));
            if k > 0 {
                assert(phis@[0]@ is Phi);
            }
            assert forall|bb: int| 0 <= bb < nb && bb != b implies #[trigger] cfg@.blocks[bb] == before.blocks[bb] by {}
            assert(pv[b as int] == view_instrs(phis@));
            assert(nv =~= pv[b as int] + g1.blocks[b as int].instructions) by {
                assert forall|i: int| 0 <= i < k implies nv[i] == pv[b as int][i] by {
                    assert(nv[i] == new_ins@[i]@);
                }
                assert forall|i: int| k <= i < nv.len() implies nv[i] == g1.blocks[b as int].instructions[i - k] by {
                    assert(nv[i] == new_ins@[k + (i - k)]@);
                }
            }
            assert(cfg@.forward =~= before.forward);
            assert(cfg@.backward =~= before.backward);
            assert forall|bb: int| 0 <= bb < nb implies (#[trigger] cfg@.blocks[bb]).id == BlockId(bb as usize) by {
                assert(cfg@.blocks[bb].id == before.blocks[bb].id);
            }
        }
        b = b + 1;
    }
    // replace every register read by what it stands for
    let ghost g2 = cfg@;
    let mut b: usize = 0;
    while b < nb
        invariant
            same_writes(g2, cfg@),
            builder@ == sf,
            g2.len() == nb,
            forall|bb: int| b <= bb < nb ==> #[trigger] cfg@.blocks[bb] == g2.blocks[bb],
            forall|bb: int, ii: int|
                0 <= bb < nb && 0 <= ii < g2.blocks[bb].instructions.len() && !(g2.blocks[bb].instructions[ii] is Phi)
                    ==> reads_resolved(sf.aliases, g2.blocks[bb].instructions[ii], #[trigger] cfg@.blocks[bb].instructions[ii]),
            nb == g0.len(),
            bw.len() == nb,
            builder.inv(bw),
            phis_wide(builder@),
            cfg@.wf(),
            cfg@.len() == nb,
            cfg@.forward == g0.forward,
            cfg@.backward == g0.backward,
            forall|bb: int|
                0 <= bb < nb ==> ssa_block(g0.blocks[bb].instructions, #[trigger] cfg@.blocks[bb].instructions, g0.backward[bb].len()),
            b <= nb,
        decreases nb - b,
    {
        let n_ins = cfg.blocks[b].instructions.len();
        let mut i: usize = 0;
        while i < n_ins
            invariant
                same_writes(g2, cfg@),
                builder@ == sf,
                g2.len() == nb,
                forall|bb: int| b < bb < nb ==> #[trigger] cfg@.blocks[bb] == g2.blocks[bb],
                forall|ii: int| i <= ii < n_ins ==> #[trigger] cfg@.blocks[b as int].instructions[ii] == g2.blocks[b as int].instructions[ii],
                forall|bb: int, ii: int|
                    0 <= bb < nb && 0 <= ii < g2.blocks[bb].instructions.len() && !(g2.blocks[bb].instructions[ii] is Phi)
                        ==> reads_resolved(sf.aliases, g2.blocks[bb].instructions[ii], #[trigger] cfg@.blocks[bb].instructions[ii]),
                nb == g0.len(),
                b < nb,
                builder.inv(bw),
                phis_wide(builder@),
                cfg@.wf(),
                cfg@.len() == nb,
                cfg@.forward == g0.forward,
                cfg@.backward == g0.backward,
                n_ins == cfg@.blocks[b as int].instructions.len(),
                forall|bb: int|
                    0 <= bb < nb ==> ssa_block(g0.blocks[bb].instructions, #[trigger] cfg@.blocks[bb].instructions, g0.backward[bb].len()),
                i <= n_ins,
            decreases n_ins - i,
        {
            proof {
                assert(cfg@.blocks[b as int].instructions == view_instrs(cfg.blocks@[b as int].instructions@));
            }
            let new_one = resolve_instruction(&builder, &cfg.blocks[b].instructions[i]);
            let ghost before = cfg@;
            let ghost old_one = cfg.blocks@[b as int].instructions@[i as int]@;
            cfg.blocks[b].instructions.set(i, new_one);
            proof {
                let cur = cfg@.blocks[b as int].instructions;
                let prev = before.blocks[b as int].instructions;
                assert(cur =~= prev.update(i as int, new_one@));
                let o = g0.blocks[b as int].instructions;
                let kk = prev.len() - o.len();
                assert(cur.len() == prev.len());
                assert forall|j: int| 0 <= j < kk implies (#[trigger] cur[j]) is Phi && cur[j]->Phi_srcs.len() == g0.backward[b as int].len() by {
                    if j == i {
                        assert(prev[j] is Phi);
                        assert(same_shape(prev[j], cur[j]));
                    }
                }
                assert forall|j: int| 0 <= j < o.len() implies same_shape(o[j], #[trigger] cur.skip(kk)[j]) by {
                    assert(same_shape(o[j], prev.skip(kk)[j]));
                    if j + kk == i {
                        assert(prev.skip(kk)[j] == old_one);
                        lemma_same_shape_trans(o[j], old_one, new_one@);
                    } else {
                        assert(cur.skip(kk)[j] == prev.skip(kk)[j]);
                    }
                }
                assert forall|bb: int| 0 <= bb < nb && bb != b implies #[trigger] cfg@.blocks[bb] == before.blocks[bb] by {}
                assert(cfg@.forward =~= before.forward);
                assert(cfg@.backward =~= before.backward);
                assert forall|bb: int| 0 <= bb < nb implies (#[trigger] cfg@.blocks[bb]).id == BlockId(bb as usize) by {
                    assert(cfg@.blocks[bb].id == before.blocks[bb].id);
                }
                assert(same_shape(old_one, new_one@));
                assert(old_one is Phi ==> new_one@ is Phi);
                assert forall|bb: int, j: int|
                    0 <= bb < g2.len() && 0 <= j < g2.blocks[bb].instructions.len() implies (#[trigger] cfg@.blocks[bb].instructions[j]).written()
                        == g2.blocks[bb].instructions[j].written() && (cfg@.blocks[bb].instructions[j] is Phi
                        <==> g2.blocks[bb].instructions[j] is Phi) by {
                    if bb == b && j == i {
                        assert(cur[j] == new_one@);
                        assert(prev[j] == old_one);
                    } else if bb == b {
                        assert(cur[j] == prev[j]);
                    } else {
                        assert(cfg@.blocks[bb] == before.blocks[bb]);
                    }
                }
                assert forall|bb: int| 0 <= bb < g2.len() implies (#[trigger] cfg@.blocks[bb]).instructions.len() == g2.blocks[bb].instructions.len() by {
                    if bb != b {
                        assert(cfg@.blocks[bb] == before.blocks[bb]);
                    }
                }
            }
            i = i + 1;
        }
        b = b + 1;
    }
    proof {
        assert forall|bb: int|
            0 <= bb < g0.len() && (#[trigger] cfg@.blocks[bb]).instructions.len() > g0.blocks[bb].instructions.len()
                implies g0.backward[bb].len() >= 2 by {
            assert(g2.blocks[bb].instructions.len() == cfg@.blocks[bb].instructions.len());
        }
        if phi_free(g0) {
            assert forall|bb: int, i: int|
                0 <= bb < g1.len() && 0 <= i < g1.blocks[bb].instructions.len() implies !(#[trigger] g1.blocks[bb].instructions[i] is Phi) by {
                assert(same_shape(g0.blocks[bb].instructions[i], g1.blocks[bb].instructions[i]));
                assert(!(g0.blocks[bb].instructions[i] is Phi));
            }
            assert forall|bb: int, j: int|
                done.contains(bb) && 0 <= j < g1.blocks[bb].instructions.len() implies owned_write(g1, sf, floor, owner, bb, j) by {
                assert(!(g1.blocks[bb].instructions[j] is Phi));
            }
            assert forall|bb: int, j: int| 0 <= bb < pv.len() && 0 <= j < pv[bb].len() implies (#[trigger] pv[bb][j]) is Phi
                && pv[bb][j]->Phi_vreg < sf.next && sf.made_phi[pv[bb][j]->Phi_vreg as int] && phi_owner.contains_key(
                pv[bb][j]->Phi_vreg,
            ) && phi_owner[pv[bb][j]->Phi_vreg] == (bb, j) by {
                assert(pv[bb][j] == block_phis@[bb]@[j]@);
            }
            lemma_single_assignment(g1, pv, g2, cfg@, sf, floor, owner, phi_owner, done, param_types@);
            assert forall|bb: int, j: int|
                done.contains(bb) && 0 <= j < g1.blocks[bb].instructions.len() implies ((
                #[trigger] g1.blocks[bb].instructions[j]).written() matches Some(w) ==> alias_of(sf.aliases, SsaValue(w))
                is None) by {
                assert(owned_write(g1, sf, floor, owner, bb, j));
                if let Some(w) = g1.blocks[bb].instructions[j].written() {
                    assert(!sf.made_phi[w as int] && w < sf.next);
                    if sf.aliases[w as int] is Some {
                        assert(sf.made_phi[w as int]);
                    }
                }
            }
            lemma_local_reads(g0, g1, pv, g2, cfg@, sf.aliases, done);
            assert(closed_from_entry(cfg@, done)) by {
                assert(rpo@[0] == BlockId(0));
                assert(done.contains(rpo@[0].0 as int));
                assert forall|bb: int, sx: int|
                    done.contains(bb) && 0 <= sx < cfg@.forward[bb].len() implies done.contains(#[trigger] cfg@.forward[bb][sx].0 as int) by {
                    let k = choose|k: int| 0 <= k < rpo@.len() && rpo@[k].0 == bb;
                    assert(rpo@[k].0 == bb);
                    let t = cfg@.forward[bb][sx];
                    assert(rpo@.contains(g0.forward[rpo@[k].0 as int][sx]));
                    let k2 = choose|k2: int| 0 <= k2 < rpo@.len() && rpo@[k2] == t;
                    assert(done.contains(rpo@[k2].0 as int));
                }
            }
        }
    }
    proof {
        let g = cfg@;
        if phis_have_sources(g0) {
            assert forall|b: int, i: int|
                0 <= b < g.len() && 0 <= i < g.blocks[b].instructions.len() && (#[trigger] g.blocks[b].instructions[i]) is Phi
                    implies g.blocks[b].instructions[i]->Phi_srcs.len() >= g.backward[b].len() by {
                let o = g0.blocks[b].instructions;
                let c = g.blocks[b].instructions;
                let kk = c.len() - o.len();
                assert(ssa_block(o, c, g0.backward[b].len()));
                if i >= kk {
                    assert(same_shape(o[i - kk], c.skip(kk)[i - kk]));
                    assert(c.skip(kk)[i - kk] == c[i]);
                    assert(o[i - kk] is Phi);
                    assert(g0.blocks[b].instructions[i - kk] is Phi);
                }
            }
        }
    }
}

} // verus!
