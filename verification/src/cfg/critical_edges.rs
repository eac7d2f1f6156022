//! Splitting critical edges: an edge from a block with several successors to a block
//! with several predecessors gets a block of its own in between.

use vstd::prelude::*;

use crate::cfg::{
    count_of, lemma_count_contains, lemma_count_single, lemma_count_update, view_block, view_edges, BasicBlock,
    BlockId, BlockV, CfgV, ControlFlowGraph,
};
use crate::module::instruction::{copy_bytes, bytes_eq, view_instrs, InstrV, Instruction};
use crate::cfg::phi_lowering::phis_have_sources;
use crate::text::{append_decimal, append_slice, decimal};

verus! {

/// `critical_blk_`, the start of the label of a block inserted on a critical edge.
pub const CRITICAL_PREFIX: [u8; 13] = [99, 114, 105, 116, 105, 99, 97, 108, 95, 98, 108, 107, 95];

/// The label of the block numbered `id` when it was inserted on a critical edge.
pub open spec fn critical_label(id: nat) -> Seq<u8> {
    CRITICAL_PREFIX@ + decimal(id)
}

/// Whether `u -> v` is a critical edge: `u` has several successors and `v` several
/// predecessors.
pub open spec fn is_critical(g: CfgV, u: int, v: int) -> bool {
    &&& 0 <= u < g.len()
    &&& 0 <= v < g.len()
    &&& g.forward[u].contains(BlockId(v as usize))
    &&& g.forward[u].len() > 1
    &&& g.backward[v].len() > 1
}

/// No edge of `g` is critical.
pub open spec fn no_critical_edges(g: CfgV) -> bool {
    forall|u: int, v: int| !is_critical(g, u, v)
}

/// No edge appears twice among the successors of a block.
pub open spec fn no_parallel_edges(g: CfgV) -> bool {
    forall|u: int, v: int|
        0 <= u < g.len() && 0 <= v < g.len() ==> #[trigger] count_of(g.forward[u], BlockId(v as usize)) <= 1
}

/// The name of the first label in a list of instructions.
pub open spec fn first_label(s: Seq<InstrV>) -> Option<Seq<u8>>
    decreases s.len(),
{
    if s.len() == 0 {
        None
    } else if s[0] is Label {
        Some(s[0]->Label_0)
    } else {
        first_label(s.drop_first())
    }
}

/// A jump or branch to `from` now goes to `to`; other instructions stay as they are.
pub open spec fn redirect(ins: InstrV, from: Seq<u8>, to: Seq<u8>) -> InstrV {
    match ins {
        InstrV::Jmp(l) => if l == from {
            InstrV::Jmp(to)
        } else {
            ins
        },
        InstrV::Br { cond, true_br, false_br } => InstrV::Br {
            cond,
            true_br: if true_br == from {
                to
            } else {
                true_br
            },
            false_br: if false_br == from {
                to
            } else {
                false_br
            },
        },
        _ => ins,
    }
}

/// Applies a list of redirections, first to last.
pub open spec fn apply_renames(ins: InstrV, rs: Seq<(Seq<u8>, Seq<u8>)>) -> InstrV
    decreases rs.len(),
{
    if rs.len() == 0 {
        ins
    } else {
        redirect(apply_renames(ins, rs.drop_last()), rs.last().0, rs.last().1)
    }
}

proof fn lemma_renames_keep_phis(ins: InstrV, rs: Seq<(Seq<u8>, Seq<u8>)>)
    ensures
        (apply_renames(ins, rs) is Phi) == (ins is Phi),
        ins is Phi ==> apply_renames(ins, rs) == ins,
    decreases rs.len(),
{
    if rs.len() > 0 {
        lemma_renames_keep_phis(ins, rs.drop_last());
    }
}

/// Splitting critical edges leaves the phi nodes where they were, with their sources, and
/// every block with as many predecessors: when each phi node had a source for every
/// predecessor of its block, it still has.
pub proof fn lemma_split_keeps_phi_sources(g: CfgV, crit: Seq<(BlockId, BlockId)>, h: CfgV)
    requires
        split_inv(g, crit, crit.len() as int, h),
        phis_have_sources(g),
    ensures
        phis_have_sources(h),
{
    let k = crit.len() as int;
    assert forall|b: int, i: int|
        0 <= b < h.len() && 0 <= i < h.blocks[b].instructions.len() && (#[trigger] h.blocks[b].instructions[i]) is Phi
            implies h.blocks[b].instructions[i]->Phi_srcs.len() >= h.backward[b].len() by {
        if b < g.len() {
            let rs = renames(g, crit, b, k);
            let x = g.blocks[b].instructions[i];
            assert(h.blocks[b].instructions[i] == apply_renames(x, rs));
            lemma_renames_keep_phis(x, rs);
            assert(h.backward[b].len() == g.backward[b].len());
        } else {
            let kk = b - g.len();
            assert(h.blocks[g.len() + kk] == split_block(g, crit, kk));
            assert(h.blocks[b].instructions[i] is Label || h.blocks[b].instructions[i] is Jmp);
        }
    }
}

/// Sorted strictly by source, then destination.
pub open spec fn pair_lt(a: (BlockId, BlockId), b: (BlockId, BlockId)) -> bool {
    a.0.0 < b.0.0 || (a.0.0 == b.0.0 && a.1.0 < b.1.0)
}

pub open spec fn sorted_pairs(s: Seq<(BlockId, BlockId)>) -> bool {
    forall|i: int, j: int| 0 <= i < j < s.len() ==> pair_lt(s[i], s[j])
}

/// The redirections that splitting the first `k` edges of `crit` makes in block `b`:
/// for each such edge out of `b`, in order, the label of its destination becomes the
/// label of the block inserted for it (numbered `n` plus the edge's position).
pub open spec fn renames(g0: CfgV, crit: Seq<(BlockId, BlockId)>, b: int, k: int) -> Seq<(Seq<u8>, Seq<u8>)>
    decreases k,
{
    if k <= 0 {
        Seq::empty()
    } else {
        let prev = renames(g0, crit, b, k - 1);
        let e = crit[k - 1];
        if e.0.0 == b {
            prev.push(
                (
                    first_label(g0.blocks[e.1.0 as int].instructions).unwrap(),
                    critical_label((g0.len() + k - 1) as nat),
                ),
            )
        } else {
            prev
        }
    }
}

/// The block put on the `k`-th split edge.
pub open spec fn split_block(g0: CfgV, crit: Seq<(BlockId, BlockId)>, k: int) -> BlockV {
    BlockV {
        id: BlockId((g0.len() + k) as usize),
        instructions: seq![
            InstrV::Label(critical_label((g0.len() + k) as nat)),
            InstrV::Jmp(first_label(g0.blocks[crit[k].1.0 as int].instructions).unwrap()),
        ],
    }
}

/// The critical edges of `g`, in sorted order, without repetition.
pub open spec fn critical_list(g: CfgV, crit: Seq<(BlockId, BlockId)>) -> bool {
    &&& sorted_pairs(crit)
    &&& forall|p: (BlockId, BlockId)| #[trigger] crit.contains(p) <==> is_critical(g, p.0.0 as int, p.1.0 as int)
}

/// The successors of `u` after the first `k` edges of `crit` were split.
pub open spec fn split_forward(g0: CfgV, crit: Seq<(BlockId, BlockId)>, k: int, u: int) -> Seq<BlockId> {
    g0.forward[u].map_values(
        |v: BlockId|
            if crit.subrange(0, k).contains((BlockId(u as usize), v)) {
                BlockId((g0.len() + crit.index_of((BlockId(u as usize), v))) as usize)
            } else {
                v
            },
    )
}

/// The predecessors of `v` after the first `k` edges of `crit` were split.
pub open spec fn split_backward(g0: CfgV, crit: Seq<(BlockId, BlockId)>, k: int, v: int) -> Seq<BlockId> {
    g0.backward[v].map_values(
        |u: BlockId|
            if crit.subrange(0, k).contains((u, BlockId(v as usize))) {
                BlockId((g0.len() + crit.index_of((u, BlockId(v as usize)))) as usize)
            } else {
                u
            },
    )
}

proof fn lemma_redirect_label(ins: InstrV, rs: Seq<(Seq<u8>, Seq<u8>)>)
    ensures
        (apply_renames(ins, rs) is Label) == (ins is Label),
        ins is Label ==> apply_renames(ins, rs) == ins,
    decreases rs.len(),
{
    if rs.len() > 0 {
        lemma_redirect_label(ins, rs.drop_last());
    }
}

proof fn lemma_first_label_renamed(s: Seq<InstrV>, rs: Seq<(Seq<u8>, Seq<u8>)>)
    ensures
        first_label(s.map_values(|i: InstrV| apply_renames(i, rs))) == first_label(s),
    decreases s.len(),
{
    let t = s.map_values(|i: InstrV| apply_renames(i, rs));
    if s.len() > 0 {
        lemma_redirect_label(s[0], rs);
        assert(t.drop_first() =~= s.drop_first().map_values(|i: InstrV| apply_renames(i, rs)));
        lemma_first_label_renamed(s.drop_first(), rs);
    }
}

fn redirect_instruction(ins: &Instruction, from: &Vec<u8>, to: &Vec<u8>) -> (r: Instruction)
    ensures
        r@ == redirect(ins@, from@, to@),
{
    match ins {
        Instruction::Jmp(l) => {
            if bytes_eq(l, from) {
                Instruction::Jmp(copy_bytes(to))
            } else {
                Instruction::Jmp(copy_bytes(l))
            }
        },
        Instruction::Br { cond, true_br, false_br } => {
            let t = if bytes_eq(true_br, from) {
                copy_bytes(to)
            } else {
                copy_bytes(true_br)
            };
            let f = if bytes_eq(false_br, from) {
                copy_bytes(to)
            } else {
                copy_bytes(false_br)
            };
            Instruction::Br { cond: cond.duplicate(), true_br: t, false_br: f }
        },
        _ => ins.duplicate(),
    }
}

/// Inserts a pair into a sorted list that has no repetition, unless it is there already.
fn insert_sorted(v: &mut Vec<(BlockId, BlockId)>, x: (BlockId, BlockId))
    requires
        sorted_pairs(old(v)@),
    ensures
        sorted_pairs(final(v)@),
        forall|p: (BlockId, BlockId)| #[trigger] final(v)@.contains(p) <==> (old(v)@.contains(p) || p == x),
{
    let mut i: usize = 0;
    while i < v.len() && pair_lt_exec(v[i], x)
        invariant
            i <= v.len(),
            forall|j: int| 0 <= j < i ==> pair_lt(v@[j], x),
        decreases v.len() - i,
    {
        i = i + 1;
    }
    if i < v.len() && v[i].0.0 == x.0.0 && v[i].1.0 == x.1.0 {
        assert(v@[i as int] == x);
        return;
    }
    let ghost old_v = v@;
    proof {
        if i < old_v.len() {
            assert(pair_lt(x, old_v[i as int]));
        }
    }
    v.insert(i, x);
    proof {
        assert forall|a: int, b: int| 0 <= a < b < v@.len() implies pair_lt(v@[a], v@[b]) by {
            if a < i && b > i {
                assert(pair_lt(old_v[a], old_v[b - 1]));
            } else if a == i && b > i + 1 {
                assert(pair_lt(old_v[i as int], old_v[b - 1]));
            }
        }
        assert forall|p: (BlockId, BlockId)| #[trigger] v@.contains(p) <==> (old_v.contains(p) || p == x) by {
            if v@.contains(p) {
                let k = choose|k: int| 0 <= k < v@.len() && v@[k] == p;
                if k < i {
                    assert(old_v[k] == p);
                } else if k > i {
                    assert(old_v[k - 1] == p);
                }
            }
            if old_v.contains(p) {
                let k = choose|k: int| 0 <= k < old_v.len() && old_v[k] == p;
                if k < i {
                    assert(v@[k] == p);
                } else {
                    assert(v@[k + 1] == p);
                }
            }
            if p == x {
                assert(v@[i as int] == p);
            }
        }
    }
}

fn pair_lt_exec(a: (BlockId, BlockId), b: (BlockId, BlockId)) -> (r: bool)
    ensures
        r == pair_lt(a, b),
{
    a.0.0 < b.0.0 || (a.0.0 == b.0.0 && a.1.0 < b.1.0)
}

impl ControlFlowGraph {
    /// The name of the first label of a block, if it has one.
    pub fn get_block_label(&self, id: usize) -> (r: Option<Vec<u8>>)
        requires
            id < self@.len(),
        ensures
            match first_label(self@.blocks[id as int].instructions) {
                Some(l) => r is Some && r.unwrap()@ == l,
                None => r is None,
            },
    {
        let ins = &self.blocks[id].instructions;
        let ghost s = view_instrs(ins@);
        let mut i: usize = 0;
        assert(s.subrange(0, s.len() as int) =~= s);
        while i < ins.len()
            invariant
                i <= ins.len(),
                s == view_instrs(ins@),
                s == self@.blocks[id as int].instructions,
                first_label(s) == first_label(s.subrange(i as int, s.len() as int)),
            decreases ins.len() - i,
        {
            assert(s.subrange(i as int, s.len() as int).drop_first() =~= s.subrange(i + 1, s.len() as int));
            if let Some(name) = ins[i].get_label_name() {
                return Some(copy_bytes(name));
            }
            i = i + 1;
        }
        None
    }

    /// The critical edges, sorted by source and then destination, without repetition.
    fn critical_edges(&self) -> (crit: Vec<(BlockId, BlockId)>)
        requires
            self@.wf(),
        ensures
            critical_list(self@, crit@),
    {
        let ghost g = self@;
        let n = self.blocks.len();
        proof {
            assert(g.len() == n);
        }
        let mut crit: Vec<(BlockId, BlockId)> = Vec::new();
        let mut i: usize = 0;
        while i < n
            invariant
                g == self@,
                g.wf(),
                n == g.len(),
                i <= n,
                sorted_pairs(crit@),
                forall|p: (BlockId, BlockId)|
                    #[trigger] crit@.contains(p) <==> (is_critical(g, p.0.0 as int, p.1.0 as int) && p.0.0 < i),
            decreases n - i,
        {
            let succs = &self.forward_edges[i];
            proof {
                assert(succs@ == g.forward[i as int]);
            }
            if succs.len() > 1 {
                let mut j: usize = 0;
                while j < succs.len()
                    invariant
                        g == self@,
                        g.wf(),
                        n == g.len(),
                        i < n,
                        succs@ == g.forward[i as int],
                        succs@.len() > 1,
                        j <= succs.len(),
                        sorted_pairs(crit@),
                        forall|p: (BlockId, BlockId)|
                            #[trigger] crit@.contains(p) <==> ((is_critical(g, p.0.0 as int, p.1.0 as int) && p.0.0
                                < i) || (p.0.0 == i && g.backward[p.1.0 as int].len() > 1 && succs@.subrange(
                                0,
                                j as int,
                            ).contains(p.1))),
                    decreases succs.len() - j,
                {
                    let dst = succs[j];
                    proof {
                        assert(dst.0 < n);
                    }
                    let ghost before = crit@;
                    let inserted = self.backward_edges[dst.0].len() > 1;
                    if inserted {
                        insert_sorted(&mut crit, (BlockId(i), dst));
                    }
                    proof {
                        assert(inserted == (g.backward[dst.0 as int].len() > 1));
                        if !inserted {
                            assert(crit@ == before);
                        }
                    }
                    proof {
                        assert forall|p: (BlockId, BlockId)|
                            #[trigger] crit@.contains(p) <==> ((is_critical(g, p.0.0 as int, p.1.0 as int) && p.0.0
                                < i) || (p.0.0 == i && g.backward[p.1.0 as int].len() > 1 && succs@.subrange(
                                0,
                                j + 1,
                            ).contains(p.1))) by {
                            if p.0.0 == i && p.1 == dst {
                                assert(p == (BlockId(i), dst));
                            }
                            assert(before.contains(p) ==> crit@.contains(p));
                            assert(before.contains(p) <==> ((is_critical(g, p.0.0 as int, p.1.0 as int) && p.0.0 < i)
                                || (p.0.0 == i && g.backward[p.1.0 as int].len() > 1 && succs@.subrange(0, j as int).contains(p.1))));
                            assert(crit@.contains(p) <==> (before.contains(p) || (inserted && p == (BlockId(i), dst))));
                            let s1 = succs@.subrange(0, j as int);
                            let s2 = succs@.subrange(0, j + 1);
                            assert(s2 =~= s1.push(dst));
                            assert(s2[j as int] == dst);
                            if s1.contains(p.1) {
                                let k = choose|k: int| 0 <= k < s1.len() && s1[k] == p.1;
                                assert(s2[k] == p.1);
                            }
                            if s2.contains(p.1) && p.1 != dst {
                                let k = choose|k: int| 0 <= k < s2.len() && s2[k] == p.1;
                                assert(s1[k] == p.1);
                            }
                        }
                    }
                    j = j + 1;
                }
                proof {
                    assert(succs@.subrange(0, succs@.len() as int) =~= succs@);
                }
            }
            proof {
                assert forall|p: (BlockId, BlockId)|
                    #[trigger] crit@.contains(p) <==> (is_critical(g, p.0.0 as int, p.1.0 as int) && p.0.0 < i + 1) by {
                    if p.0.0 == i && is_critical(g, p.0.0 as int, p.1.0 as int) {
                        let k = choose|k: int| 0 <= k < g.forward[i as int].len() && g.forward[i as int][k] == BlockId(p.1.0);
                        assert(g.forward[i as int][k] == p.1);
                    }
                }
            }
            i = i + 1;
        }
        crit
    }
}


/// In a sorted list without repetition, an element's first index is its position.
proof fn lemma_sorted_index_of(s: Seq<(BlockId, BlockId)>, k: int)
    requires
        sorted_pairs(s),
        0 <= k < s.len(),
    ensures
        s.index_of(s[k]) == k,
        s.subrange(0, k).contains(s[k]) == false,
{
    let i = s.index_of(s[k]);
    assert(s.contains(s[k]));
    if i < k {
        assert(pair_lt(s[i], s[k]));
    }
    if i > k {
        assert(pair_lt(s[k], s[i]));
    }
    if s.subrange(0, k).contains(s[k]) {
        let j = choose|j: int| 0 <= j < k && s.subrange(0, k)[j] == s[k];
        assert(pair_lt(s[j], s[k]));
    }
}

/// The position of the first occurrence of `x` in `s`, if any.
fn find_first(s: &Vec<BlockId>, x: BlockId) -> (r: Option<usize>)
    ensures
        match r {
            Some(i) => i < s@.len() && s@[i as int] == x && forall|j: int| 0 <= j < i ==> s@[j] != x,
            None => !s@.contains(x),
        },
{
    let mut i: usize = 0;
    while i < s.len()
        invariant
            i <= s.len(),
            forall|j: int| 0 <= j < i ==> s@[j] != x,
        decreases s.len() - i,
    {
        if s[i].0 == x.0 {
            return Some(i);
        }
        i = i + 1;
    }
    None
}

/// Two occurrences of an element that occurs at most once are the same occurrence.
proof fn lemma_unique_index(s: Seq<BlockId>, x: BlockId, i: int, j: int)
    requires
        count_of(s, x) <= 1,
        0 <= i < s.len(),
        0 <= j < s.len(),
        s[i] == x,
        s[j] == x,
    ensures
        i == j,
    decreases s.len(),
{
    if i != j {
        let m = if i < j { j } else { i };
        let l = if i < j { i } else { j };
        if m == s.len() - 1 {
            assert(s.drop_last()[l] == x);
            lemma_count_contains(s.drop_last(), x);
        } else {
            assert(s.drop_last()[l] == x);
            assert(s.drop_last()[m] == x);
            lemma_unique_index(s.drop_last(), x, l, m);
        }
    }
}

/// An element that does not occur has count zero.
proof fn lemma_count_absent(s: Seq<BlockId>, x: BlockId)
    requires
        !s.contains(x),
    ensures
        count_of(s, x) == 0,
{
    lemma_count_contains(s, x);
}

/// One split step keeps the edges mirrored.
proof fn lemma_step_mirrored(g1: CfgV, g: CfgV, src: int, dst: int, j0: int, q0: int)
    requires
        g1.wf(),
        g1.mirrored(),
        0 <= src < g1.len(),
        0 <= dst < g1.len(),
        0 <= j0 < g1.forward[src].len(),
        0 <= q0 < g1.backward[dst].len(),
        g1.forward[src][j0] == BlockId(dst as usize),
        g1.backward[dst][q0] == BlockId(src as usize),
        g.blocks.len() == g1.blocks.len() + 1,
        g1.blocks.len() < usize::MAX,
        g.forward == g1.forward.update(src, g1.forward[src].update(j0, BlockId(g1.len() as usize))).push(
            seq![BlockId(dst as usize)],
        ),
        g.backward == g1.backward.update(dst, g1.backward[dst].update(q0, BlockId(g1.len() as usize))).push(
            seq![BlockId(src as usize)],
        ),
    ensures
        g.mirrored(),
{
    let blk = g1.len() as int;
    let bid = BlockId(blk as usize);
    assert forall|u: int, v: int| 0 <= u < g.blocks.len() && 0 <= v < g.blocks.len() implies count_of(
        #[trigger] g.forward[u],
        BlockId(v as usize),
    ) == count_of(#[trigger] g.backward[v], BlockId(u as usize)) by {
        let bu = BlockId(u as usize);
        let bv = BlockId(v as usize);
        if u < blk && v < blk {
            assert(count_of(g1.forward[u], bv) == count_of(g1.backward[v], bu));
            if u == src {
                lemma_count_update(g1.forward[src], j0, bid, bv);
                assert(g.forward[u] == g1.forward[src].update(j0, bid));
            } else {
                assert(g.forward[u] == g1.forward[u]);
            }
            if v == dst {
                lemma_count_update(g1.backward[dst], q0, bid, bu);
                assert(g.backward[v] == g1.backward[dst].update(q0, bid));
            } else {
                assert(g.backward[v] == g1.backward[v]);
            }
        } else if u == blk && v < blk {
            assert(g.forward[u] == seq![BlockId(dst as usize)]);
            lemma_count_single(BlockId(dst as usize), bv);
            assert forall|j: int| 0 <= j < g1.backward[v].len() implies g1.backward[v][j] != bid by {
                assert(g1.backward[v][j].0 < g1.len());
            }
            lemma_count_absent(g1.backward[v], bid);
            if v == dst {
                lemma_count_update(g1.backward[dst], q0, bid, bid);
                assert(g.backward[v] == g1.backward[dst].update(q0, bid));
            } else {
                assert(g.backward[v] == g1.backward[v]);
            }
        } else if u < blk && v == blk {
            assert(g.backward[v] == seq![BlockId(src as usize)]);
            lemma_count_single(BlockId(src as usize), bu);
            assert forall|j: int| 0 <= j < g1.forward[u].len() implies g1.forward[u][j] != bid by {
                assert(g1.forward[u][j].0 < g1.len());
            }
            lemma_count_absent(g1.forward[u], bid);
            if u == src {
                lemma_count_update(g1.forward[src], j0, bid, bid);
                assert(g.forward[u] == g1.forward[src].update(j0, bid));
            } else {
                assert(g.forward[u] == g1.forward[u]);
            }
        } else {
            assert(g.forward[u] == seq![BlockId(dst as usize)]);
            assert(g.backward[v] == seq![BlockId(src as usize)]);
            lemma_count_single(BlockId(dst as usize), bv);
            lemma_count_single(BlockId(src as usize), bu);
        }
    }
}

proof fn lemma_subrange_push_contains(cs: Seq<(BlockId, BlockId)>, k: int, x: (BlockId, BlockId))
    requires
        0 <= k < cs.len(),
    ensures
        cs.subrange(0, k + 1).contains(x) == (cs.subrange(0, k).contains(x) || x == cs[k]),
{
    assert(cs.subrange(0, k + 1) =~= cs.subrange(0, k).push(cs[k]));
    if cs.subrange(0, k + 1).contains(x) && x != cs[k] {
        let j = choose|j: int| 0 <= j < k + 1 && #[trigger] cs.subrange(0, k + 1)[j] == x;
        assert(cs.subrange(0, k)[j] == x);
    }
    if cs.subrange(0, k).contains(x) {
        let j = choose|j: int| 0 <= j < k && #[trigger] cs.subrange(0, k)[j] == x;
        assert(cs.subrange(0, k + 1)[j] == x);
    }
    if x == cs[k] {
        assert(cs.subrange(0, k + 1)[k] == x);
    }
}

proof fn lemma_split_forward_step(g0: CfgV, cs: Seq<(BlockId, BlockId)>, k: int, u: int, j: int)
    requires
        sorted_pairs(cs),
        0 <= k < cs.len(),
        0 <= u < g0.forward.len(),
        0 <= j < g0.forward[u].len(),
    ensures
        split_forward(g0, cs, k + 1, u)[j] == if (BlockId(u as usize), g0.forward[u][j]) == cs[k] {
            BlockId((g0.len() + k) as usize)
        } else {
            split_forward(g0, cs, k, u)[j]
        },
{
    lemma_subrange_push_contains(cs, k, (BlockId(u as usize), g0.forward[u][j]));
    lemma_sorted_index_of(cs, k);
}

proof fn lemma_split_backward_step(g0: CfgV, cs: Seq<(BlockId, BlockId)>, k: int, v: int, j: int)
    requires
        sorted_pairs(cs),
        0 <= k < cs.len(),
        0 <= v < g0.backward.len(),
        0 <= j < g0.backward[v].len(),
    ensures
        split_backward(g0, cs, k + 1, v)[j] == if (g0.backward[v][j], BlockId(v as usize)) == cs[k] {
            BlockId((g0.len() + k) as usize)
        } else {
            split_backward(g0, cs, k, v)[j]
        },
{
    lemma_subrange_push_contains(cs, k, (g0.backward[v][j], BlockId(v as usize)));
    lemma_sorted_index_of(cs, k);
}

/// What holds after the first `k` critical edges were split.
pub open spec fn split_inv(g0: CfgV, cs: Seq<(BlockId, BlockId)>, k: int, g: CfgV) -> bool {
    &&& g.wf()
    &&& g.len() == g0.len() + k
    &&& forall|v: int| 0 <= v < g0.len() ==> (#[trigger] g.backward[v]).len() == g0.backward[v].len()
    &&& forall|b: int|
        0 <= b < g0.len() ==> (#[trigger] g.blocks[b]).instructions == g0.blocks[b].instructions.map_values(
            |i: InstrV| apply_renames(i, renames(g0, cs, b, k)),
        )
    &&& forall|kk: int|
        0 <= kk < k ==> #[trigger] g.blocks[g0.len() + kk] == split_block(g0, cs, kk) && g.forward[g0.len() + kk]
            == seq![cs[kk].1] && g.backward[g0.len() + kk] == seq![cs[kk].0]
    &&& (g0.mirrored() && no_parallel_edges(g0)) ==> {
        &&& g.mirrored()
        &&& forall|u: int| 0 <= u < g0.len() ==> #[trigger] g.forward[u] == split_forward(g0, cs, k, u)
        &&& forall|v: int| 0 <= v < g0.len() ==> #[trigger] g.backward[v] == split_backward(g0, cs, k, v)
    }
}

/// After splitting the first `k` edges, the successors of a block that was there before are
/// either its successors before or blocks inserted for edges already split.
proof fn lemma_split_forward_entry(g0: CfgV, cs: Seq<(BlockId, BlockId)>, k: int, u: int, j: int)
    requires
        sorted_pairs(cs),
        0 <= k <= cs.len(),
        g0.len() + k <= usize::MAX,
        0 <= u < g0.forward.len(),
        0 <= j < g0.forward[u].len(),
    ensures
        split_forward(g0, cs, k, u)[j] == g0.forward[u][j] || (split_forward(g0, cs, k, u)[j].0 >= g0.len()
            && split_forward(g0, cs, k, u)[j].0 < g0.len() + k),
        !cs.subrange(0, k).contains((BlockId(u as usize), g0.forward[u][j])) ==> split_forward(g0, cs, k, u)[j]
            == g0.forward[u][j],
        cs.subrange(0, k).contains((BlockId(u as usize), g0.forward[u][j])) ==> split_forward(g0, cs, k, u)[j].0
            >= g0.len(),
{
    let x = (BlockId(u as usize), g0.forward[u][j]);
    if cs.subrange(0, k).contains(x) {
        let c = choose|c: int| 0 <= c < k && #[trigger] cs.subrange(0, k)[c] == x;
        assert(cs[c] == x);
        lemma_sorted_index_of(cs, c);
    }
}

proof fn lemma_split_backward_entry(g0: CfgV, cs: Seq<(BlockId, BlockId)>, k: int, v: int, j: int)
    requires
        sorted_pairs(cs),
        0 <= k <= cs.len(),
        g0.len() + k <= usize::MAX,
        0 <= v < g0.backward.len(),
        0 <= j < g0.backward[v].len(),
    ensures
        split_backward(g0, cs, k, v)[j] == g0.backward[v][j] || (split_backward(g0, cs, k, v)[j].0 >= g0.len()
            && split_backward(g0, cs, k, v)[j].0 < g0.len() + k),
        !cs.subrange(0, k).contains((g0.backward[v][j], BlockId(v as usize))) ==> split_backward(g0, cs, k, v)[j]
            == g0.backward[v][j],
{
    let x = (g0.backward[v][j], BlockId(v as usize));
    if cs.subrange(0, k).contains(x) {
        let c = choose|c: int| 0 <= c < k && #[trigger] cs.subrange(0, k)[c] == x;
        assert(cs[c] == x);
        lemma_sorted_index_of(cs, c);
    }
}

/// Splitting the `k`-th critical edge keeps `split_inv`.
proof fn lemma_split_step(
    g0: CfgV,
    cs: Seq<(BlockId, BlockId)>,
    k: int,
    g1: CfgV,
    g: CfgV,
    fp: Option<usize>,
    bp: Option<usize>,
    bl: Seq<u8>,
    dl: Seq<u8>,
)
    requires
        g0.wf(),
        critical_list(g0, cs),
        0 <= k < cs.len(),
        split_inv(g0, cs, k, g1),
        g.blocks.len() == g0.len() + k + 1,
        g.blocks.len() <= usize::MAX,
        bl == critical_label((g0.len() + k) as nat),
        dl == first_label(g0.blocks[cs[k].1.0 as int].instructions).unwrap(),
        forall|b: int|
            0 <= b < g0.len() + k && b != cs[k].0.0 ==> #[trigger] g.blocks[b] == g1.blocks[b],
        g.blocks[cs[k].0.0 as int].id == g1.blocks[cs[k].0.0 as int].id,
        g.blocks[cs[k].0.0 as int].instructions == g1.blocks[cs[k].0.0 as int].instructions.map_values(
            |i: InstrV| redirect(i, dl, bl),
        ),
        g.blocks[g0.len() + k] == (BlockV {
            id: BlockId((g0.len() + k) as usize),
            instructions: seq![InstrV::Label(bl), InstrV::Jmp(dl)],
        }),
        match fp {
            Some(p) => p < g1.forward[cs[k].0.0 as int].len() && g1.forward[cs[k].0.0 as int][p as int] == cs[k].1
                && forall|j: int| 0 <= j < p ==> g1.forward[cs[k].0.0 as int][j] != cs[k].1,
            None => !g1.forward[cs[k].0.0 as int].contains(cs[k].1),
        },
        match bp {
            Some(q) => q < g1.backward[cs[k].1.0 as int].len() && g1.backward[cs[k].1.0 as int][q as int] == cs[k].0
                && forall|j: int| 0 <= j < q ==> g1.backward[cs[k].1.0 as int][j] != cs[k].0,
            None => !g1.backward[cs[k].1.0 as int].contains(cs[k].0),
        },
        g.forward == (match fp {
            Some(p) => g1.forward.update(
                cs[k].0.0 as int,
                g1.forward[cs[k].0.0 as int].update(p as int, BlockId((g0.len() + k) as usize)),
            ),
            None => g1.forward,
        }).push(seq![cs[k].1]),
        g.backward == (match bp {
            Some(q) => g1.backward.update(
                cs[k].1.0 as int,
                g1.backward[cs[k].1.0 as int].update(q as int, BlockId((g0.len() + k) as usize)),
            ),
            None => g1.backward,
        }).push(seq![cs[k].0]),
    ensures
        split_inv(g0, cs, k + 1, g),
{
    let n = g0.len() as int;
    let src = cs[k].0;
    let dst = cs[k].1;
    let srci = src.0 as int;
    assert(cs.contains(cs[k]));
    assert(0 <= dst.0 < n);
    assert forall|v: int| 0 <= v < g0.len() implies (#[trigger] g.backward[v]).len() == g0.backward[v].len() by {
        assert(g1.backward[v].len() == g0.backward[v].len());
        assert(g1.backward.len() == n + k);
        match bp {
            Some(q) => {
                let ub = g1.backward.update(dst.0 as int, g1.backward[dst.0 as int].update(q as int, BlockId((n + k) as usize)));
                assert(g.backward == ub.push(seq![src]));
                assert(ub.push(seq![src])[v] == ub[v]);
                assert(g.backward[v] == ub[v]);
                if v == dst.0 {
                    assert(ub[v].len() == g1.backward[v].len());
                } else {
                    assert(ub[v] == g1.backward[v]);
                }
            },
            None => {
                assert(g.backward == g1.backward.push(seq![src]));
                assert(g1.backward.push(seq![src])[v] == g1.backward[v]);
            },
        }
    }
    let dsti = dst.0 as int;
    let blk = BlockId((n + k) as usize);
    assert(cs.contains(cs[k]));
    assert(is_critical(g0, srci, dsti));
    let pair = (dl, bl);
    // the instructions of the blocks that were there before
    assert forall|b: int| 0 <= b < n implies (#[trigger] g.blocks[b]).instructions == g0.blocks[b].instructions.map_values(
        |i: InstrV| apply_renames(i, renames(g0, cs, b, k + 1)),
    ) by {
        let rk = renames(g0, cs, b, k);
        let rk1 = renames(g0, cs, b, k + 1);
        if b == srci {
            assert(rk1 == rk.push(pair));
            assert(rk.push(pair).drop_last() =~= rk);
            assert(g.blocks[b].instructions =~= g0.blocks[b].instructions.map_values(|i: InstrV| apply_renames(i, rk1)));
        } else {
            assert(rk1 == rk);
        }
    }
    assert forall|kk: int| 0 <= kk < k + 1 implies #[trigger] g.blocks[n + kk] == split_block(g0, cs, kk) && g.forward[n
        + kk] == seq![cs[kk].1] && g.backward[n + kk] == seq![cs[kk].0] by {
        if kk == k {
            assert(split_block(g0, cs, kk).instructions =~= seq![InstrV::Label(bl), InstrV::Jmp(dl)]);
        } else {
            assert(g.blocks[n + kk] == g1.blocks[n + kk]);
        }
    }
    // well formed
    assert forall|i: int| 0 <= i < g.blocks.len() implies (#[trigger] g.blocks[i]).id == BlockId(i as usize) by {
        if i < n + k && i != srci {
            assert(g.blocks[i] == g1.blocks[i]);
        }
    }
    assert forall|i: int, j: int| 0 <= i < g.forward.len() && 0 <= j < g.forward[i].len() implies (
    #[trigger] g.forward[i][j]).0 < g.blocks.len() by {
        if i < n + k && !(i == srci && fp is Some && j == fp.unwrap()) {
            assert(g.forward[i][j] == g1.forward[i][j]);
        }
    }
    assert forall|i: int, j: int| 0 <= i < g.backward.len() && 0 <= j < g.backward[i].len() implies (
    #[trigger] g.backward[i][j]).0 < g.blocks.len() by {
        if i < n + k && !(i == dsti && bp is Some && j == bp.unwrap()) {
            assert(g.backward[i][j] == g1.backward[i][j]);
        }
    }
    assert(g.wf());
    if g0.mirrored() && no_parallel_edges(g0) {
        lemma_sorted_index_of(cs, k);
        let f0 = g0.forward[srci];
        let b0 = g0.backward[dsti];
        let j0 = choose|j: int| 0 <= j < f0.len() && f0[j] == dst;
        assert(count_of(f0, dst) <= 1);
        assert(count_of(b0, src) == count_of(f0, dst));
        lemma_count_contains(f0, dst);
        lemma_count_contains(b0, src);
        let q0 = choose|j: int| 0 <= j < b0.len() && b0[j] == src;
        assert(g1.forward[srci] == split_forward(g0, cs, k, srci));
        assert(g1.backward[dsti] == split_backward(g0, cs, k, dsti));
        lemma_split_forward_entry(g0, cs, k, srci, j0);
        lemma_split_backward_entry(g0, cs, k, dsti, q0);
        assert(g1.forward[srci][j0] == dst);
        assert(g1.backward[dsti][q0] == src);
        assert(fp is Some && fp.unwrap() as int == j0) by {
            assert(g1.forward[srci].contains(dst));
            let p = fp.unwrap() as int;
            lemma_split_forward_entry(g0, cs, k, srci, p);
            lemma_unique_index(f0, dst, p, j0);
        }
        assert(bp is Some && bp.unwrap() as int == q0) by {
            assert(g1.backward[dsti].contains(src));
            let q = bp.unwrap() as int;
            lemma_split_backward_entry(g0, cs, k, dsti, q);
            lemma_unique_index(b0, src, q, q0);
        }
        assert(BlockId(dsti as usize) == dst);
        assert(BlockId(srci as usize) == src);
        assert(BlockId(g1.len() as usize) == blk);
        assert(g.forward == g1.forward.update(srci, g1.forward[srci].update(j0, blk)).push(seq![dst]));
        assert(g.backward == g1.backward.update(dsti, g1.backward[dsti].update(q0, blk)).push(seq![src]));
        lemma_step_mirrored(g1, g, srci, dsti, j0, q0);
        assert forall|u: int| 0 <= u < n implies #[trigger] g.forward[u] == split_forward(g0, cs, k + 1, u) by {
            assert(g1.forward[u] == split_forward(g0, cs, k, u));
            if u != srci {
                assert(g.forward[u] == g1.forward[u]);
            } else {
                assert(g.forward[u] == g1.forward[srci].update(j0, blk));
            }
            assert forall|j: int| 0 <= j < g0.forward[u].len() implies #[trigger] split_forward(g0, cs, k + 1, u)[j]
                == g.forward[u][j] by {
                lemma_split_forward_step(g0, cs, k, u, j);
                if u == srci && j != j0 && g0.forward[u][j] == dst {
                    lemma_unique_index(f0, dst, j, j0);
                }
            }
            assert(g.forward[u] =~= split_forward(g0, cs, k + 1, u));
        }
        assert forall|v: int| 0 <= v < n implies #[trigger] g.backward[v] == split_backward(g0, cs, k + 1, v) by {
            assert(g1.backward[v] == split_backward(g0, cs, k, v));
            if v != dsti {
                assert(g.backward[v] == g1.backward[v]);
            } else {
                assert(g.backward[v] == g1.backward[dsti].update(q0, blk));
            }
            assert forall|j: int| 0 <= j < g0.backward[v].len() implies #[trigger] split_backward(g0, cs, k + 1, v)[j]
                == g.backward[v][j] by {
                lemma_split_backward_step(g0, cs, k, v, j);
                if v == dsti && j != q0 && g0.backward[v][j] == src {
                    lemma_unique_index(b0, src, j, q0);
                }
            }
            assert(g.backward[v] =~= split_backward(g0, cs, k + 1, v));
        }
    }
}

/// Once every critical edge is split, none is left.
proof fn lemma_split_final(g0: CfgV, cs: Seq<(BlockId, BlockId)>, g: CfgV)
    requires
        g0.wf(),
        critical_list(g0, cs),
        split_inv(g0, cs, cs.len() as int, g),
        g0.mirrored(),
        no_parallel_edges(g0),
    ensures
        no_critical_edges(g),
{
    let n = g0.len() as int;
    let kk = cs.len() as int;
    assert forall|u: int, v: int| !is_critical(g, u, v) by {
        if is_critical(g, u, v) {
            if u >= n {
                assert(g.blocks[n + (u - n)] == split_block(g0, cs, u - n));
                assert(g.forward[n + (u - n)] == seq![cs[u - n].1]);
            } else {
                assert(g.forward[u] == split_forward(g0, cs, kk, u));
                let j = choose|j: int| 0 <= j < g.forward[u].len() && g.forward[u][j] == BlockId(v as usize);
                lemma_split_forward_entry(g0, cs, kk, u, j);
                if v >= n {
                    assert(g.blocks[n + (v - n)] == split_block(g0, cs, v - n));
                    assert(g.backward[n + (v - n)] == seq![cs[v - n].0]);
                } else {
                    let x = (BlockId(u as usize), BlockId(v as usize));
                    assert(g0.forward[u][j] == BlockId(v as usize));
                    assert(!cs.subrange(0, kk).contains(x));
                    assert(cs.subrange(0, kk) =~= cs);
                    assert(g0.forward[u].contains(BlockId(v as usize)));
                    assert(g.backward[v] == split_backward(g0, cs, kk, v));
                }
            }
        }
    }
}

impl ControlFlowGraph {
    /// Splits every critical edge `src -> dst` by a new block that holds the label
    /// `critical_blk_<number>` and a jump to the label of `dst`.
    ///
    /// The critical edges are those of the graph before the call, taken in increasing
    /// order of `(src, dst)`; the `k`-th of them gets the block numbered `n + k`, where
    /// `n` is the number of blocks before the call. In `src`, the first occurrence of
    /// `dst` among the successors becomes the new block, and every jump or branch to the
    /// label of `dst` now goes to the new block's label; in `dst`, the first occurrence of
    /// `src` among the predecessors becomes the new block.
    ///
    /// When the edges were mirrored and no edge appeared twice, the graph afterwards has
    /// no critical edge and its edges are still mirrored.
    pub fn split_critical_edges(&mut self)
        requires
            old(self)@.wf(),
            forall|u: int, v: int| is_critical(old(self)@, u, v) ==> first_label(old(self)@.blocks[v].instructions) is Some,
        ensures
            final(self)@.wf(),
            exists|crit: Seq<(BlockId, BlockId)>|
                critical_list(old(self)@, crit) && #[trigger] split_inv(old(self)@, crit, crit.len() as int, final(self)@),
            (old(self)@.mirrored() && no_parallel_edges(old(self)@)) ==> final(self)@.mirrored() && no_critical_edges(
                final(self)@,
            ),
    {
        let ghost g0 = self@;
        let crit = self.critical_edges();
        let ghost cs = crit@;
        let n = self.blocks.len();
        let ghost good = g0.mirrored() && no_parallel_edges(g0);
        proof {
            assert(g0.len() == n);
            assert forall|b: int| 0 <= b < n implies (#[trigger] self@.blocks[b]).instructions == g0.blocks[b].instructions.map_values(
                |i: InstrV| apply_renames(i, renames(g0, cs, b, 0)),
            ) by {
                assert(g0.blocks[b].instructions.map_values(|i: InstrV| apply_renames(i, renames(g0, cs, b, 0)))
                    =~= g0.blocks[b].instructions);
            }
            if good {
                assert forall|u: int| 0 <= u < n implies #[trigger] self@.forward[u] == split_forward(g0, cs, 0, u) by {
                    assert(split_forward(g0, cs, 0, u) =~= g0.forward[u]);
                }
                assert forall|v: int| 0 <= v < n implies #[trigger] self@.backward[v] == split_backward(g0, cs, 0, v) by {
                    assert(split_backward(g0, cs, 0, v) =~= g0.backward[v]);
                }
            }
            assert(split_inv(g0, cs, 0, self@));
        }
        let mut k: usize = 0;
        while k < crit.len()
            invariant
                g0.wf(),
                n == g0.len(),
                cs == crit@,
                critical_list(g0, cs),
                forall|u: int, v: int| is_critical(g0, u, v) ==> first_label(g0.blocks[v].instructions) is Some,
                good == (g0.mirrored() && no_parallel_edges(g0)),
                k <= crit.len(),
                split_inv(g0, cs, k as int, self@),
            decreases crit.len() - k,
        {
            let src = crit[k].0;
            let dst = crit[k].1;
            proof {
                assert(cs.contains(cs[k as int]));
                assert(is_critical(g0, src.0 as int, dst.0 as int));
                lemma_first_label_renamed(g0.blocks[dst.0 as int].instructions, renames(g0, cs, dst.0 as int, k as int));
            }
            let dst_label = match self.get_block_label(dst.0) {
                Some(l) => l,
                None => {
                    proof {
                        assert(false);
                    }
                    Vec::new()
                },
            };
            let ghost g1 = self@;
            let blk = self.create_block();
            let ghost ga = self@;
            let mut blk_label: Vec<u8> = Vec::new();
            append_slice(&mut blk_label, &CRITICAL_PREFIX);
            append_decimal(&mut blk_label, blk.0);
            self.add_ins(blk, Instruction::Label(copy_bytes(&blk_label)));
            self.add_ins(blk, Instruction::Jmp(copy_bytes(&dst_label)));
            let ghost gb = self@;
            let mut fwd_new: Vec<BlockId> = Vec::new();
            fwd_new.push(dst);
            let mut bwd_new: Vec<BlockId> = Vec::new();
            bwd_new.push(src);
            self.forward_edges.set(blk.0, fwd_new);
            proof {
                assert(self@.forward =~= gb.forward.update(blk.0 as int, seq![dst]));
                assert(self@.blocks =~= gb.blocks);
                assert(self@.backward =~= gb.backward);
            }
            let ghost gc = self@;
            self.backward_edges.set(blk.0, bwd_new);
            proof {
                assert(self@.backward =~= gc.backward.update(blk.0 as int, seq![src]));
                assert(self@.blocks =~= gc.blocks);
                assert(self@.forward =~= gc.forward);
            }
            let ghost g2 = self@;
            proof {
                assert(g2.forward[src.0 as int] == g1.forward[src.0 as int]);
                assert(g2.backward[dst.0 as int] == g1.backward[dst.0 as int]);
            }
            let fp = find_first(&self.forward_edges[src.0], dst);
            if let Some(p) = fp {
                let ghost before = self@;
                self.forward_edges[src.0].set(p, blk);
                proof {
                    assert(self@.forward =~= before.forward.update(
                        src.0 as int,
                        before.forward[src.0 as int].update(p as int, blk),
                    ));
                    assert(self@.blocks =~= before.blocks);
                    assert(self@.backward =~= before.backward);
                }
            }
            let ghost g3 = self@;
            let bp = find_first(&self.backward_edges[dst.0], src);
            if let Some(q) = bp {
                let ghost before = self@;
                self.backward_edges[dst.0].set(q, blk);
                proof {
                    assert(self@.backward =~= before.backward.update(
                        dst.0 as int,
                        before.backward[dst.0 as int].update(q as int, blk),
                    ));
                    assert(self@.blocks =~= before.blocks);
                    assert(self@.forward =~= before.forward);
                }
            }
            let ghost g4 = self@;
            proof {
                assert(self.blocks@.len() == self@.blocks.len());
            }
            let len = self.blocks[src.0].instructions.len();
            let mut i: usize = 0;
            while i < len
                invariant
                    src.0 < n,
                    n + k + 1 == self@.len(),
                    len == self.blocks@[src.0 as int].instructions@.len(),
                    i <= len,
                    self@.forward == g4.forward,
                    self@.backward == g4.backward,
                    forall|b: int| 0 <= b < self@.len() && b != src.0 ==> #[trigger] self@.blocks[b] == g4.blocks[b],
                    self@.blocks[src.0 as int].id == g4.blocks[src.0 as int].id,
                    self@.blocks[src.0 as int].instructions.len() == len,
                    forall|j: int|
                        0 <= j < len ==> #[trigger] self@.blocks[src.0 as int].instructions[j] == if j < i {
                            redirect(g4.blocks[src.0 as int].instructions[j], dst_label@, blk_label@)
                        } else {
                            g4.blocks[src.0 as int].instructions[j]
                        },
                decreases len - i,
            {
                let ghost before = self@;
                let ghost old_ins = self.blocks@[src.0 as int].instructions@;
                let new_ins = redirect_instruction(&self.blocks[src.0].instructions[i], &dst_label, &blk_label);
                let ghost nv = new_ins@;
                self.blocks[src.0].instructions.set(i, new_ins);
                proof {
                    assert(view_instrs(old_ins.update(i as int, new_ins)) =~= view_instrs(old_ins).update(i as int, nv));
                    assert(self@.blocks[src.0 as int].instructions == before.blocks[src.0 as int].instructions.update(i as int, nv));
                    assert(before.blocks[src.0 as int].instructions[i as int] == old_ins[i as int]@);
                    assert(nv == redirect(g4.blocks[src.0 as int].instructions[i as int], dst_label@, blk_label@));
                    assert forall|j: int|
                        0 <= j < len implies #[trigger] self@.blocks[src.0 as int].instructions[j] == if j < i + 1 {
                            redirect(g4.blocks[src.0 as int].instructions[j], dst_label@, blk_label@)
                        } else {
                            g4.blocks[src.0 as int].instructions[j]
                        } by {
                        if j != i {
                            assert(self@.blocks[src.0 as int].instructions[j] == before.blocks[src.0 as int].instructions[j]);
                        }
                    }
                    assert forall|b: int| 0 <= b < self@.len() && b != src.0 implies #[trigger] self@.blocks[b] == g4.blocks[b] by {
                        assert(self@.blocks[b] == before.blocks[b]);
                    }
                }
                i = i + 1;
            }
            proof {
                let g = self@;
                let srci = src.0 as int;
                let dsti = dst.0 as int;
                assert(blk.0 == n + k);
                assert(blk_label@ =~= critical_label((n + k) as nat));
                assert(g.blocks.len() == n + k + 1);
                assert forall|b: int| 0 <= b < n + k && b != srci implies #[trigger] g.blocks[b] == g1.blocks[b] by {
                    assert(g.blocks[b] == g4.blocks[b]);
                    assert(ga.blocks[b] == g1.blocks[b]);
                }
                assert(g4.blocks[srci] == g1.blocks[srci]) by {
                    assert(ga.blocks[srci] == g1.blocks[srci]);
                }
                assert(g.blocks[srci].instructions =~= g1.blocks[srci].instructions.map_values(
                    |i: InstrV| redirect(i, dst_label@, blk_label@),
                ));
                assert(gb.blocks[n + k].instructions =~= seq![InstrV::Label(blk_label@), InstrV::Jmp(dst_label@)]);
                assert(g.blocks[n + k] == g4.blocks[n + k]);
                assert(g2.forward =~= g1.forward.push(seq![dst]));
                assert(g2.backward =~= g1.backward.push(seq![src]));
                assert(g3.backward == g2.backward);
                assert(g.forward == g3.forward);
                assert(g.forward =~= (match fp {
                    Some(p) => g1.forward.update(srci, g1.forward[srci].update(p as int, blk)),
                    None => g1.forward,
                }).push(seq![dst]));
                assert(g.backward =~= (match bp {
                    Some(q) => g1.backward.update(dsti, g1.backward[dsti].update(q as int, blk)),
                    None => g1.backward,
                }).push(seq![src]));
                lemma_split_step(g0, cs, k as int, g1, g, fp, bp, blk_label@, dst_label@);
            }
            k = k + 1;
        }
        proof {
            assert(split_inv(g0, cs, cs.len() as int, self@));
            assert(critical_list(g0, cs));
            if good {
                lemma_split_final(g0, cs, self@);
            }
        }
    }
}
impl ControlFlowGraph {
    /// Whether every block that a critical edge enters has a label, which splitting the
    /// edge needs.
    pub fn critical_targets_labeled(&self) -> (r: bool)
        requires
            self@.wf(),
        ensures
            r == (forall|u: int, v: int| is_critical(self@, u, v) ==> first_label(self@.blocks[v].instructions) is Some),
    {
        let crit = self.critical_edges();
        let ghost g = self@;
        let mut i: usize = 0;
        while i < crit.len()
            invariant
                g == self@,
                g.wf(),
                critical_list(g, crit@),
                i <= crit@.len(),
                forall|j: int| 0 <= j < i ==> first_label(g.blocks[(#[trigger] crit@[j]).1.0 as int].instructions) is Some,
            decreases crit@.len() - i,
        {
            let v = crit[i].1.0;
            proof {
                assert(crit@.contains(crit@[i as int]));
                assert(is_critical(g, crit@[i as int].0.0 as int, v as int));
            }
            if self.get_block_label(v).is_none() {
                proof {
                    assert(is_critical(g, crit@[i as int].0.0 as int, v as int));
                }
                return false;
            }
            i = i + 1;
        }
        proof {
            assert forall|u: int, v: int| is_critical(g, u, v) implies first_label(g.blocks[v].instructions) is Some by {
                let p = (BlockId(u as usize), BlockId(v as usize));
                assert(crit@.contains(p));
                let j = choose|j: int| 0 <= j < crit@.len() && crit@[j] == p;
                assert(first_label(g.blocks[(crit@[j]).1.0 as int].instructions) is Some);
            }
        }
        true
    }
}


} // verus!
