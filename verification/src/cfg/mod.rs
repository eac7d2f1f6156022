//! The control flow graph of a function, and the passes that work on it.
//!
//! A graph is well formed when its blocks are numbered by their position, when it has one
//! list of successors and one list of predecessors per block, and when every edge ends at
//! a block of the graph. Its edges are mirrored when each edge `u -> v` appears as often
//! among the successors of `u` as `u` appears among the predecessors of `v`.

pub mod builder;
pub mod critical_edges;
pub mod parallel_moves;
pub mod phi_lowering;

use vstd::prelude::*;

use crate::module::instruction::{view_instrs, InstrV, Instruction};

verus! {

/// The number of a basic block in its graph.
#[derive(Debug, Clone, Copy, PartialEq, Eq, Structural, Hash, PartialOrd, Ord)]
pub struct BlockId(pub usize);

/// A basic block: a straight-line sequence of instructions.
#[derive(Debug)]
pub struct BasicBlock {
    pub id: BlockId,
    pub instructions: Vec<Instruction>,
}

/// The mathematical view of a [`BasicBlock`].
pub struct BlockV {
    pub id: BlockId,
    pub instructions: Seq<InstrV>,
}

impl View for BasicBlock {
    type V = BlockV;

    open spec fn view(&self) -> BlockV {
        BlockV { id: self.id, instructions: view_instrs(self.instructions@) }
    }
}

pub open spec fn view_block(b: BasicBlock) -> BlockV {
    b@
}

pub open spec fn view_edges(e: Vec<BlockId>) -> Seq<BlockId> {
    e@
}

/// The control flow graph of a function.
#[derive(Debug)]
pub struct ControlFlowGraph {
    pub blocks: Vec<BasicBlock>,
    pub forward_edges: Vec<Vec<BlockId>>,
    pub backward_edges: Vec<Vec<BlockId>>,
}

/// The mathematical view of a [`ControlFlowGraph`].
pub struct CfgV {
    pub blocks: Seq<BlockV>,
    pub forward: Seq<Seq<BlockId>>,
    pub backward: Seq<Seq<BlockId>>,
}

impl View for ControlFlowGraph {
    type V = CfgV;

    open spec fn view(&self) -> CfgV {
        CfgV {
            blocks: self.blocks@.map_values(|b: BasicBlock| view_block(b)),
            forward: self.forward_edges@.map_values(|e: Vec<BlockId>| view_edges(e)),
            backward: self.backward_edges@.map_values(|e: Vec<BlockId>| view_edges(e)),
        }
    }
}

/// How often `x` occurs in `s`.
pub open spec fn count_of(s: Seq<BlockId>, x: BlockId) -> nat
    decreases s.len(),
{
    if s.len() == 0 {
        0
    } else {
        count_of(s.drop_last(), x) + if s.last() == x {
            1nat
        } else {
            0nat
        }
    }
}

impl CfgV {
    pub open spec fn len(self) -> nat {
        self.blocks.len()
    }

    /// One list of successors and one of predecessors per block, block `i` numbered `i`,
    /// and every edge between blocks of the graph.
    pub open spec fn wf(self) -> bool {
        &&& self.blocks.len() <= usize::MAX
        &&& self.forward.len() == self.blocks.len()
        &&& self.backward.len() == self.blocks.len()
        &&& forall|i: int| 0 <= i < self.blocks.len() ==> (#[trigger] self.blocks[i]).id == BlockId(i as usize)
        &&& forall|i: int, j: int|
            0 <= i < self.forward.len() && 0 <= j < self.forward[i].len() ==> (#[trigger] self.forward[i][j]).0
                < self.blocks.len()
        &&& forall|i: int, j: int|
            0 <= i < self.backward.len() && 0 <= j < self.backward[i].len() ==> (#[trigger] self.backward[i][j]).0
                < self.blocks.len()
    }

    /// Every edge `u -> v` appears as often among the successors of `u` as among the
    /// predecessors of `v`.
    pub open spec fn mirrored(self) -> bool {
        forall|u: int, v: int|
            0 <= u < self.blocks.len() && 0 <= v < self.blocks.len() ==> count_of(
                #[trigger] self.forward[u],
                BlockId(v as usize),
            ) == count_of(#[trigger] self.backward[v], BlockId(u as usize))
    }
}

pub proof fn lemma_count_push(s: Seq<BlockId>, y: BlockId, x: BlockId)
    ensures
        count_of(s.push(y), x) == count_of(s, x) + if y == x {
            1nat
        } else {
            0nat
        },
{
    assert(s.push(y).drop_last() =~= s);
}

pub proof fn lemma_count_empty(x: BlockId)
    ensures
        count_of(Seq::<BlockId>::empty(), x) == 0,
{
}

pub proof fn lemma_count_single(y: BlockId, x: BlockId)
    ensures
        count_of(seq![y], x) == if y == x {
            1nat
        } else {
            0nat
        },
{
    lemma_count_push(Seq::<BlockId>::empty(), y, x);
    assert(Seq::<BlockId>::empty().push(y) =~= seq![y]);
}

/// `count_of` is positive exactly for the members of the sequence.
pub proof fn lemma_count_contains(s: Seq<BlockId>, x: BlockId)
    ensures
        (count_of(s, x) > 0) == s.contains(x),
    decreases s.len(),
{
    if s.len() > 0 {
        lemma_count_contains(s.drop_last(), x);
        if s.drop_last().contains(x) {
            let k = choose|k: int| 0 <= k < s.drop_last().len() && s.drop_last()[k] == x;
            assert(s[k] == x);
        }
        if s.contains(x) && s.last() != x {
            let k = choose|k: int| 0 <= k < s.len() && s[k] == x;
            assert(s.drop_last()[k] == x);
        }
    }
}

/// Replacing one element changes the counts of the old and the new element by one.
pub proof fn lemma_count_update(s: Seq<BlockId>, i: int, y: BlockId, x: BlockId)
    requires
        0 <= i < s.len(),
    ensures
        count_of(s.update(i, y), x) + (if s[i] == x {
            1nat
        } else {
            0nat
        }) == count_of(s, x) + (if y == x {
            1nat
        } else {
            0nat
        }),
    decreases s.len(),
{
    if i == s.len() - 1 {
        assert(s.update(i, y).drop_last() =~= s.drop_last());
    } else {
        lemma_count_update(s.drop_last(), i, y, x);
        assert(s.update(i, y).drop_last() =~= s.drop_last().update(i, y));
    }
}

impl ControlFlowGraph {
    /// A graph without blocks.
    pub fn new() -> (r: Self)
        ensures
            r@.blocks.len() == 0,
            r@.forward.len() == 0,
            r@.backward.len() == 0,
            r@.wf(),
            r@.mirrored(),
    {
        ControlFlowGraph { blocks: Vec::new(), forward_edges: Vec::new(), backward_edges: Vec::new() }
    }

    /// Appends an empty block with no edges and returns its number.
    pub fn create_block(&mut self) -> (id: BlockId)
        ensures
            id.0 == old(self)@.len(),
            final(self)@.blocks == old(self)@.blocks.push(BlockV { id, instructions: Seq::empty() }),
            final(self)@.forward == old(self)@.forward.push(Seq::empty()),
            final(self)@.backward == old(self)@.backward.push(Seq::empty()),
            old(self)@.wf() ==> final(self)@.wf(),
            old(self)@.wf() && old(self)@.mirrored() ==> final(self)@.mirrored(),
    {
        let ghost g0 = self@;
        let id = BlockId(self.blocks.len());
        let block = BasicBlock { id, instructions: Vec::new() };
        self.blocks.push(block);
        self.forward_edges.push(Vec::new());
        self.backward_edges.push(Vec::new());
        proof {
            let g = self@;
            assert(g.blocks.len() == self.blocks.len());
            assert(view_instrs(Seq::<Instruction>::empty()) =~= Seq::<InstrV>::empty());
          if g0.wf() {
            assert(g.blocks =~= g0.blocks.push(BlockV { id, instructions: Seq::empty() }));
            assert(g.forward =~= g0.forward.push(Seq::empty()));
            assert(g.backward =~= g0.backward.push(Seq::empty()));
            assert forall|i: int, j: int|
                0 <= i < g.forward.len() && 0 <= j < g.forward[i].len() implies (#[trigger] g.forward[i][j]).0
                    < g.blocks.len() by {
                assert(i < g0.forward.len());
            }
            assert forall|i: int, j: int|
                0 <= i < g.backward.len() && 0 <= j < g.backward[i].len() implies (
                #[trigger] g.backward[i][j]).0 < g.blocks.len() by {
                assert(i < g0.backward.len());
            }
            if g0.mirrored() {
                assert forall|u: int, v: int| 0 <= u < g.blocks.len() && 0 <= v < g.blocks.len() implies count_of(
                    #[trigger] g.forward[u],
                    BlockId(v as usize),
                ) == count_of(#[trigger] g.backward[v], BlockId(u as usize)) by {
                    if u == g0.blocks.len() {
                        lemma_count_empty(BlockId(v as usize));
                        if v < g0.blocks.len() {
                            lemma_count_contains(g.backward[v], BlockId(u as usize));
                        } else {
                            lemma_count_empty(BlockId(u as usize));
                        }
                    } else if v == g0.blocks.len() {
                        lemma_count_empty(BlockId(u as usize));
                        lemma_count_contains(g.forward[u], BlockId(v as usize));
                    }
                }
            }
          }
        }
        id
    }

    /// The block numbered `id`.
    pub fn get_block(&self, id: BlockId) -> (r: &BasicBlock)
        requires
            id.0 < self@.len(),
        ensures
            r@ == self@.blocks[id.0 as int],
    {
        &self.blocks[id.0]
    }

    /// Appends an instruction to a block; does nothing when the block does not exist.
    pub fn add_ins(&mut self, block_id: BlockId, ins: Instruction)
        ensures
            block_id.0 < old(self)@.len() ==> final(self)@.blocks == old(self)@.blocks.update(
                block_id.0 as int,
                BlockV {
                    id: old(self)@.blocks[block_id.0 as int].id,
                    instructions: old(self)@.blocks[block_id.0 as int].instructions.push(ins@),
                },
            ),
            block_id.0 >= old(self)@.len() ==> final(self)@.blocks == old(self)@.blocks,
            final(self)@.forward == old(self)@.forward,
            final(self)@.backward == old(self)@.backward,
    {
        let ghost g0 = self@;
        if block_id.0 < self.blocks.len() {
            let ghost old_ins = self.blocks@[block_id.0 as int].instructions@;
            self.blocks[block_id.0].instructions.push(ins);
            proof {
                assert(view_instrs(old_ins.push(ins)) =~= view_instrs(old_ins).push(ins@));
                assert(self@.blocks =~= g0.blocks.update(
                    block_id.0 as int,
                    BlockV {
                        id: g0.blocks[block_id.0 as int].id,
                        instructions: g0.blocks[block_id.0 as int].instructions.push(ins@),
                    },
                ));
            }
        }
    }

    /// Adds the edge `from -> to`.
    pub fn add_edge(&mut self, from: BlockId, to: BlockId)
        requires
            from.0 < old(self)@.forward.len(),
            to.0 < old(self)@.backward.len(),
        ensures
            final(self)@.blocks == old(self)@.blocks,
            final(self)@.forward == old(self)@.forward.update(from.0 as int, old(self)@.forward[from.0 as int].push(to)),
            final(self)@.backward == old(self)@.backward.update(to.0 as int, old(self)@.backward[to.0 as int].push(from)),
            old(self)@.wf() ==> final(self)@.wf(),
            old(self)@.wf() && old(self)@.mirrored() ==> final(self)@.mirrored(),
    {
        let ghost g0 = self@;
        self.forward_edges[from.0].push(to);
        self.backward_edges[to.0].push(from);
        proof {
            let g = self@;
            assert(g.blocks =~= g0.blocks);
            assert(g.forward =~= g0.forward.update(from.0 as int, g0.forward[from.0 as int].push(to)));
            assert(g.backward =~= g0.backward.update(to.0 as int, g0.backward[to.0 as int].push(from)));
          if g0.wf() {
            assert forall|i: int, j: int|
                0 <= i < g.forward.len() && 0 <= j < g.forward[i].len() implies (#[trigger] g.forward[i][j]).0
                    < g.blocks.len() by {
                if i == from.0 && j == g0.forward[i].len() {
                } else {
                    assert(g.forward[i][j] == g0.forward[i][j]);
                }
            }
            assert forall|i: int, j: int|
                0 <= i < g.backward.len() && 0 <= j < g.backward[i].len() implies (
                #[trigger] g.backward[i][j]).0 < g.blocks.len() by {
                if i == to.0 && j == g0.backward[i].len() {
                } else {
                    assert(g.backward[i][j] == g0.backward[i][j]);
                }
            }
            if g0.mirrored() {
                assert forall|u: int, v: int| 0 <= u < g.blocks.len() && 0 <= v < g.blocks.len() implies count_of(
                    #[trigger] g.forward[u],
                    BlockId(v as usize),
                ) == count_of(#[trigger] g.backward[v], BlockId(u as usize)) by {
                    assert(count_of(g0.forward[u], BlockId(v as usize)) == count_of(g0.backward[v], BlockId(u as usize)));
                    assert((to == BlockId(v as usize)) == (v == to.0));
                    assert((from == BlockId(u as usize)) == (u == from.0));
                    if u == from.0 {
                        assert(g.forward[u] == g0.forward[u].push(to));
                        lemma_count_push(g0.forward[u], to, BlockId(v as usize));
                    } else {
                        assert(g.forward[u] == g0.forward[u]);
                    }
                    if v == to.0 {
                        assert(g.backward[v] == g0.backward[v].push(from));
                        lemma_count_push(g0.backward[v], from, BlockId(u as usize));
                    } else {
                        assert(g.backward[v] == g0.backward[v]);
                    }
                }
            }
          }
        }
    }

    /// The successors of block `id`.
    pub fn successors(&self, id: BlockId) -> (r: &[BlockId])
        requires
            id.0 < self@.forward.len(),
        ensures
            r@ == self@.forward[id.0 as int],
    {
        self.forward_edges[id.0].as_slice()
    }

    /// The predecessors of block `id`.
    pub fn predecessors(&self, id: BlockId) -> (r: &[BlockId])
        requires
            id.0 < self@.backward.len(),
        ensures
            r@ == self@.backward[id.0 as int],
    {
        self.backward_edges[id.0].as_slice()
    }
}


/// How many entries of `v` are false.
pub open spec fn num_false(v: Seq<bool>) -> nat
    decreases v.len(),
{
    if v.len() == 0 {
        0
    } else {
        num_false(v.drop_last()) + if v.last() {
            0nat
        } else {
            1nat
        }
    }
}

/// Setting more entries to true never raises the number of false entries, and setting
/// one that was false lowers it.
pub proof fn lemma_num_false_mono(a: Seq<bool>, b: Seq<bool>)
    requires
        a.len() == b.len(),
        forall|i: int| 0 <= i < a.len() && a[i] ==> b[i],
    ensures
        num_false(b) <= num_false(a),
        (exists|i: int| 0 <= i < a.len() && !a[i] && b[i]) ==> num_false(b) < num_false(a),
    decreases a.len(),
{
    if a.len() > 0 {
        lemma_num_false_mono(a.drop_last(), b.drop_last());
        if exists|i: int| 0 <= i < a.len() && !a[i] && b[i] {
            let i = choose|i: int| 0 <= i < a.len() && !a[i] && b[i];
            if i < a.len() - 1 {
                assert(!a.drop_last()[i] && b.drop_last()[i]);
            }
        }
    }
}

/// Depth first search from block `c` with the blocks marked in `vis` already visited:
/// the marks after it and the post order `po` extended with the blocks it finished, each
/// after its successors, taken in the order of the list of successors.
pub open spec fn dfs_spec(g: CfgV, c: BlockId, vis: Seq<bool>, po: Seq<BlockId>) -> (Seq<bool>, Seq<BlockId>)
    decreases num_false(vis), 0int, 0int,
{
    if c.0 >= vis.len() || vis[c.0 as int] {
        (vis, po)
    } else {
        let v1 = vis.update(c.0 as int, true);
        proof {
            lemma_num_false_mono(vis, v1);
            assert(!vis[c.0 as int] && v1[c.0 as int]);
        }
        let r = dfs_succs_spec(g, c, 0, v1, po);
        (r.0, r.1.push(c))
    }
}

/// The depth first search from the successors of block `c`, from the `j`-th on.
pub open spec fn dfs_succs_spec(g: CfgV, c: BlockId, j: int, vis: Seq<bool>, po: Seq<BlockId>) -> (
    Seq<bool>,
    Seq<BlockId>,
)
    decreases num_false(vis), 1int, g.forward[c.0 as int].len() - j,
{
    if j < 0 || j >= g.forward[c.0 as int].len() {
        (vis, po)
    } else {
        let t = g.forward[c.0 as int][j];
        if t.0 < vis.len() && vis[t.0 as int] {
            dfs_succs_spec(g, c, j + 1, vis, po)
        } else {
            let r = dfs_spec(g, t, vis, po);
            if num_false(r.0) > num_false(vis) {
                r
            } else {
                dfs_succs_spec(g, c, j + 1, r.0, r.1)
            }
        }
    }
}

/// The blocks reachable from the entry, in reverse of the post order of a depth first
/// search from the entry over successors in list order.
pub open spec fn rpo_spec(g: CfgV) -> Seq<BlockId> {
    dfs_spec(g, BlockId(0), Seq::new(g.len(), |i: int| false), Seq::empty()).1.reverse()
}

/// A block after position `k` of `po` has the block at position `k` among its successors.
pub open spec fn parent_after(g: CfgV, po: Seq<BlockId>, k: int) -> bool {
    exists|k2: int| k < k2 < po.len() && g.forward[po[k2].0 as int].contains(po[k])
}

/// A block before position `k` of `r` has the block at position `k` among its successors.
pub open spec fn parent_before(g: CfgV, r: Seq<BlockId>, k: int) -> bool {
    exists|k2: int| 0 <= k2 < k && g.forward[r[k2].0 as int].contains(r[k])
}

/// `path` is a walk along edges of `g`: one block or more, each a successor of the one
/// before it.
pub open spec fn is_path(g: CfgV, path: Seq<BlockId>) -> bool {
    &&& path.len() >= 1
    &&& forall|i: int| 0 <= i < path.len() - 1 ==> g.forward[(#[trigger] path[i]).0 as int].contains(path[i + 1])
}

/// Block `b` can be reached from block `a` by following edges (`a` reaches itself).
pub open spec fn reaches(g: CfgV, a: BlockId, b: BlockId) -> bool {
    exists|path: Seq<BlockId>| #[trigger] is_path(g, path) && path[0] == a && path.last() == b
}

proof fn lemma_reaches_self(g: CfgV, a: BlockId)
    ensures
        reaches(g, a, a),
{
    assert(is_path(g, seq![a]));
}

proof fn lemma_reaches_step(g: CfgV, a: BlockId, b: BlockId, c: BlockId)
    requires
        reaches(g, a, b),
        g.forward[b.0 as int].contains(c),
    ensures
        reaches(g, a, c),
{
    let path = choose|path: Seq<BlockId>| #[trigger] is_path(g, path) && path[0] == a && path.last() == b;
    let p2 = path.push(c);
    assert forall|i: int| 0 <= i < p2.len() - 1 implies g.forward[(#[trigger] p2[i]).0 as int].contains(p2[i + 1]) by {
        if i < path.len() - 1 {
            assert(p2[i] == path[i] && p2[i + 1] == path[i + 1]);
        } else {
            assert(p2[i] == b);
        }
    }
    assert(is_path(g, p2));
}

/// Each successor of the block at position `k` of `po` stands before it in `po`, or leads
/// back to it.
pub open spec fn after_succs(g: CfgV, po: Seq<BlockId>, k: int) -> bool {
    forall|s: int|
        0 <= s < g.forward[po[k].0 as int].len() ==> (exists|k2: int|
            0 <= k2 < k && po[k2] == #[trigger] g.forward[po[k].0 as int][s]) || reaches(
            g,
            g.forward[po[k].0 as int][s],
            po[k],
        )
}

proof fn lemma_after_succs_extend(g: CfgV, po: Seq<BlockId>, po2: Seq<BlockId>, k: int)
    requires
        0 <= k < po.len() <= po2.len(),
        po2.subrange(0, po.len() as int) == po,
        after_succs(g, po, k),
    ensures
        after_succs(g, po2, k),
{
    assert(po2[k] == po2.subrange(0, po.len() as int)[k]);
    assert forall|s: int| 0 <= s < g.forward[po2[k].0 as int].len() implies (exists|k2: int|
        0 <= k2 < k && po2[k2] == #[trigger] g.forward[po2[k].0 as int][s]) || reaches(
        g,
        g.forward[po2[k].0 as int][s],
        po2[k],
    ) by {
        let t = g.forward[po[k].0 as int][s];
        if exists|k2: int| 0 <= k2 < k && po[k2] == t {
            let k2 = choose|k2: int| 0 <= k2 < k && po[k2] == t;
            assert(po2[k2] == po2.subrange(0, po.len() as int)[k2]);
        }
    }
}

impl ControlFlowGraph {
    /// Appends to `post_order` the blocks reachable from `curr` through unvisited
    /// blocks, each after its successors (depth first, successors in order).
    fn dfs_post_order(&self, curr: BlockId, visited: &mut Vec<bool>, post_order: &mut Vec<BlockId>)
        requires
            self@.wf(),
            old(visited)@.len() == self@.len(),
            curr.0 < self@.len(),
            !old(visited)@[curr.0 as int],
            forall|x: BlockId|
                x.0 < self@.len() && old(visited)@[x.0 as int] && !old(post_order)@.contains(x) ==> reaches(self@, x, curr),
        ensures
            (final(visited)@, final(post_order)@) == dfs_spec(self@, curr, old(visited)@, old(post_order)@),
            forall|k: int|
                old(post_order)@.len() <= k < final(post_order)@.len() ==> #[trigger] after_succs(self@, final(post_order)@, k),
            final(visited)@.len() == self@.len(),
            forall|b: int| 0 <= b < self@.len() && old(visited)@[b] ==> final(visited)@[b],
            final(visited)@[curr.0 as int],
            num_false(final(visited)@) < num_false(old(visited)@),
            final(post_order)@.len() > old(post_order)@.len(),
            final(post_order)@.subrange(0, old(post_order)@.len() as int) == old(post_order)@,
            final(post_order)@.last() == curr,
            forall|k: int|
                old(post_order)@.len() <= k < final(post_order)@.len() ==> (#[trigger] final(post_order)@[k]).0
                    < self@.len() && !old(visited)@[final(post_order)@[k].0 as int] && final(visited)@[final(post_order)@[k].0 as int],
            forall|k1: int, k2: int|
                old(post_order)@.len() <= k1 < k2 < final(post_order)@.len() ==> final(post_order)@[k1]
                    != final(post_order)@[k2],
            forall|b: int|
                0 <= b < self@.len() && final(visited)@[b] && !old(visited)@[b] ==> exists|k: int|
                    old(post_order)@.len() <= k < final(post_order)@.len() && (#[trigger] final(post_order)@[k]).0
                        == b,
            forall|k: int, s: int|
                old(post_order)@.len() <= k < final(post_order)@.len() && 0 <= s < self@.forward[final(post_order)@[k].0 as int].len() ==> final(visited)@[(#[trigger] self@.forward[final(post_order)@[k].0 as int][s]).0 as int],
            forall|k: int|
                old(post_order)@.len() <= k < final(post_order)@.len() - 1 ==> #[trigger] parent_after(
                    self@,
                    final(post_order)@,
                    k,
                ),
        decreases num_false(old(visited)@),
    {
        let ghost v0 = visited@;
        let ghost p0 = post_order@;
        let ghost n = self@.len();
        visited.set(curr.0, true);
        let ghost v1 = visited@;
        proof {
            lemma_num_false_mono(v0, visited@);
            assert(v1 =~= v0.update(curr.0 as int, true));
        }
        let succs = &self.forward_edges[curr.0];
        let mut j: usize = 0;
        while j < succs.len()
            invariant
                dfs_succs_spec(self@, curr, j as int, visited@, post_order@) == dfs_succs_spec(self@, curr, 0, v1, p0),
                self@.wf(),
                n == self@.len(),
                curr.0 < n,
                succs@ == self@.forward[curr.0 as int],
                j <= succs.len(),
                visited@.len() == n,
                forall|b: int| 0 <= b < n && v0[b] ==> visited@[b],
                visited@[curr.0 as int],
                num_false(visited@) < num_false(v0),
                v0 == old(visited)@,
                post_order@.len() >= p0.len(),
                post_order@.subrange(0, p0.len() as int) == p0,
                forall|k: int|
                    p0.len() <= k < post_order@.len() ==> (#[trigger] post_order@[k]).0 < n && !v0[post_order@[k].0 as int]
                        && visited@[post_order@[k].0 as int] && post_order@[k] != curr,
                forall|k1: int, k2: int|
                    p0.len() <= k1 < k2 < post_order@.len() ==> post_order@[k1] != post_order@[k2],
                forall|b: int|
                    0 <= b < n && visited@[b] && !v0[b] && b != curr.0 ==> exists|k: int|
                        p0.len() <= k < post_order@.len() && (#[trigger] post_order@[k]).0 == b,
                forall|k: int, s: int|
                    p0.len() <= k < post_order@.len() && 0 <= s < self@.forward[post_order@[k].0 as int].len()
                        ==> visited@[(#[trigger] self@.forward[post_order@[k].0 as int][s]).0 as int],
                forall|jj: int| 0 <= jj < j ==> visited@[(#[trigger] succs@[jj]).0 as int],
                forall|k: int|
                    p0.len() <= k < post_order@.len() ==> succs@.contains(post_order@[k]) || #[trigger] parent_after(
                        self@,
                        post_order@,
                        k,
                    ),
                forall|x: BlockId|
                    x.0 < n && visited@[x.0 as int] && !post_order@.contains(x) ==> x == curr || (v0[x.0 as int]
                        && !p0.contains(x)),
                forall|x: BlockId| x.0 < n && v0[x.0 as int] && !p0.contains(x) ==> reaches(self@, x, curr),
                forall|k: int| p0.len() <= k < post_order@.len() ==> #[trigger] after_succs(self@, post_order@, k),
            decreases succs.len() - j,
        {
            let succ = succs[j];
            proof {
                assert(self@.forward[curr.0 as int][j as int] == succ);
            }
            let ghost spec_here = dfs_succs_spec(self@, curr, j as int, visited@, post_order@);
            if !visited[succ.0] {
                let ghost v1 = visited@;
                let ghost p1 = post_order@;
                proof {
                    assert(self@.forward[curr.0 as int].contains(succ));
                    assert forall|x: BlockId| x.0 < n && v1[x.0 as int] && !p1.contains(x) implies reaches(self@, x, succ) by {
                        if x == curr {
                            lemma_reaches_self(self@, curr);
                        } else {
                            assert(visited@[x.0 as int] && !post_order@.contains(x));
                            assert(v0[x.0 as int] && !p0.contains(x));
                            assert(reaches(self@, x, curr));
                        }
                        lemma_reaches_step(self@, x, curr, succ);
                    }
                }
                self.dfs_post_order(succ, visited, post_order);
                proof {
                    assert(spec_here == dfs_succs_spec(self@, curr, j + 1, visited@, post_order@));
                    lemma_num_false_mono(v1, visited@);
                    assert forall|x: BlockId| x.0 < n && visited@[x.0 as int] && !post_order@.contains(x) implies x == curr
                        || (v0[x.0 as int] && !p0.contains(x)) by {
                        if !v1[x.0 as int] {
                            let k = choose|k: int| p1.len() <= k < post_order@.len() && (#[trigger] post_order@[k]).0 == x.0;
                            assert(post_order@[k] == x);
                        } else {
                            if p1.contains(x) {
                                let k = choose|k: int| 0 <= k < p1.len() && p1[k] == x;
                                assert(post_order@[k] == post_order@.subrange(0, p1.len() as int)[k]);
                            }
                        }
                    }
                    assert forall|k: int| p0.len() <= k < post_order@.len() implies #[trigger] after_succs(self@, post_order@, k) by {
                        if k < p1.len() {
                            lemma_after_succs_extend(self@, p1, post_order@, k);
                        }
                    }
                    assert(post_order@.subrange(0, p0.len() as int) =~= p1.subrange(0, p0.len() as int));
                    assert forall|k: int| p0.len() <= k < post_order@.len() implies (#[trigger] post_order@[k]).0 < n
                        && !v0[post_order@[k].0 as int] && visited@[post_order@[k].0 as int] && post_order@[k] != curr by {
                        if k < p1.len() {
                            assert(post_order@[k] == post_order@.subrange(0, p1.len() as int)[k]);
                        }
                    }
                    assert forall|k1: int, k2: int| p0.len() <= k1 < k2 < post_order@.len() implies post_order@[k1]
                        != post_order@[k2] by {
                        if k1 < p1.len() {
                            assert(post_order@[k1] == post_order@.subrange(0, p1.len() as int)[k1]);
                        }
                        if k2 < p1.len() {
                            assert(post_order@[k2] == post_order@.subrange(0, p1.len() as int)[k2]);
                        }
                    }
                    assert forall|b: int| 0 <= b < n && visited@[b] && !v0[b] && b != curr.0 implies exists|k: int|
                        p0.len() <= k < post_order@.len() && (#[trigger] post_order@[k]).0 == b by {
                        if v1[b] {
                            let k = choose|k: int| p0.len() <= k < p1.len() && (#[trigger] p1[k]).0 == b;
                            assert(post_order@[k] == post_order@.subrange(0, p1.len() as int)[k]);
                        }
                    }
                    assert forall|k: int, s: int|
                        p0.len() <= k < post_order@.len() && 0 <= s < self@.forward[post_order@[k].0 as int].len()
                            implies visited@[(#[trigger] self@.forward[post_order@[k].0 as int][s]).0 as int] by {
                        if k < p1.len() {
                            assert(post_order@[k] == post_order@.subrange(0, p1.len() as int)[k]);
                            assert(v1[self@.forward[p1[k].0 as int][s].0 as int]);
                        }
                    }
                    assert forall|k: int| p0.len() <= k < post_order@.len() implies succs@.contains(post_order@[k])
                        || #[trigger] parent_after(self@, post_order@, k) by {
                        if k < p1.len() {
                            assert(post_order@[k] == post_order@.subrange(0, p1.len() as int)[k]);
                            assert(p1[k] == post_order@[k]);
                            if !succs@.contains(p1[k]) {
                                assert(parent_after(self@, p1, k));
                                let k2 = choose|k2: int|
                                    k < k2 < p1.len() && self@.forward[p1[k2].0 as int].contains(p1[k]);
                                assert(post_order@[k2] == post_order@.subrange(0, p1.len() as int)[k2]);
                                assert(self@.forward[post_order@[k2].0 as int].contains(post_order@[k]));
                            }
                        } else if k == post_order@.len() - 1 {
                            assert(post_order@[k] == succ);
                            assert(succs@[j as int] == succ);
                            assert(succs@.contains(succ));
                        } else {
                            assert(parent_after(self@, post_order@, k));
                        }
                    }
                }
            }
            proof {
                if visited@[succ.0 as int] && spec_here == dfs_succs_spec(self@, curr, j as int, visited@, post_order@) {
                    assert(spec_here == dfs_succs_spec(self@, curr, j + 1, visited@, post_order@));
                }
            }
            j = j + 1;
        }
        let ghost p2 = post_order@;
        proof {
            assert(dfs_succs_spec(self@, curr, j as int, visited@, post_order@) == (visited@, post_order@));
        }
        post_order.push(curr);
        proof {
            assert(post_order@.subrange(0, p0.len() as int) =~= p2.subrange(0, p0.len() as int));
            assert(post_order@.subrange(0, p2.len() as int) =~= p2);
            assert forall|k: int| p0.len() <= k < post_order@.len() implies #[trigger] after_succs(self@, post_order@, k) by {
                if k < p2.len() {
                    lemma_after_succs_extend(self@, p2, post_order@, k);
                } else {
                    assert(post_order@[k] == curr);
                    assert forall|s: int| 0 <= s < self@.forward[curr.0 as int].len() implies (exists|k2: int|
                        0 <= k2 < k && post_order@[k2] == #[trigger] self@.forward[curr.0 as int][s]) || reaches(
                        self@,
                        self@.forward[curr.0 as int][s],
                        curr,
                    ) by {
                        let t = self@.forward[curr.0 as int][s];
                        assert(succs@[s] == t);
                        assert(visited@[t.0 as int]);
                        if p2.contains(t) {
                            let k2 = choose|k2: int| 0 <= k2 < p2.len() && p2[k2] == t;
                            assert(post_order@[k2] == p2[k2]);
                        } else if t == curr {
                            lemma_reaches_self(self@, curr);
                        } else {
                            assert(v0[t.0 as int] && !p0.contains(t));
                        }
                    }
                }
            }
            assert forall|k: int, s: int|
                p0.len() <= k < post_order@.len() && 0 <= s < self@.forward[post_order@[k].0 as int].len()
                    implies visited@[(#[trigger] self@.forward[post_order@[k].0 as int][s]).0 as int] by {
                if k < p2.len() {
                    assert(post_order@[k] == p2[k]);
                } else {
                    assert(succs@[s] == self@.forward[curr.0 as int][s]);
                }
            }
            assert forall|b: int| 0 <= b < n && visited@[b] && !v0[b] implies exists|k: int|
                p0.len() <= k < post_order@.len() && (#[trigger] post_order@[k]).0 == b by {
                if b == curr.0 {
                    assert(post_order@[p2.len() as int] == curr);
                } else {
                    let k = choose|k: int| p0.len() <= k < p2.len() && (#[trigger] p2[k]).0 == b;
                    assert(post_order@[k] == p2[k]);
                }
            }
            assert forall|k: int|
                p0.len() <= k < post_order@.len() implies (#[trigger] post_order@[k]).0 < n && !v0[post_order@[k].0 as int]
                    && visited@[post_order@[k].0 as int] by {
                if k < p2.len() {
                    assert(post_order@[k] == p2[k]);
                }
            }
            assert forall|k1: int, k2: int| p0.len() <= k1 < k2 < post_order@.len() implies post_order@[k1]
                != post_order@[k2] by {
                assert(post_order@[k1] == p2[k1]);
                if k2 < p2.len() {
                    assert(post_order@[k2] == p2[k2]);
                }
            }
            assert forall|k: int| p0.len() <= k < post_order@.len() - 1 implies #[trigger] parent_after(
                self@,
                post_order@,
                k,
            ) by {
                assert(post_order@[k] == p2[k]);
                let last = post_order@.len() - 1;
                assert(post_order@[last] == curr);
                if succs@.contains(p2[k]) {
                    assert(self@.forward[post_order@[last].0 as int].contains(post_order@[k]));
                } else {
                    assert(parent_after(self@, p2, k));
                    let k2 = choose|k2: int| k < k2 < p2.len() && self@.forward[p2[k2].0 as int].contains(p2[k]);
                    assert(post_order@[k2] == p2[k2]);
                    assert(self@.forward[post_order@[k2].0 as int].contains(post_order@[k]));
                }
            }
        }
    }

    /// The blocks reachable from the entry block (block 0) in reverse post order.
    ///
    /// The entry comes first, no block appears twice, every successor of a listed block is
    /// listed, and every other listed block is a successor of one listed before it: the
    /// blocks listed are those reachable from the entry. A successor of a listed block comes
    /// after it, unless it leads back to it (the edge closes a loop). The order is exactly
    /// the reverse of the post order of a depth first search from the entry that takes the
    /// successors of each block in list order ([`rpo_spec`]).
    pub fn compute_rpo(&self) -> (r: Vec<BlockId>)
        requires
            self@.wf(),
            self@.len() > 0,
        ensures
            r@.len() > 0,
            r@[0] == BlockId(0),
            forall|i: int| 0 <= i < r@.len() ==> (#[trigger] r@[i]).0 < self@.len(),
            r@.no_duplicates(),
            forall|i: int, s: int|
                0 <= i < r@.len() && 0 <= s < self@.forward[r@[i].0 as int].len() ==> r@.contains(
                    #[trigger] self@.forward[r@[i].0 as int][s],
                ),
            forall|i: int| 0 < i < r@.len() ==> #[trigger] parent_before(self@, r@, i),
            r@ == rpo_spec(self@),
            // a successor of a listed block comes after it, unless it leads back to it
            forall|i: int, s: int|
                0 <= i < r@.len() && 0 <= s < self@.forward[r@[i].0 as int].len() ==> (exists|j: int|
                    i < j < r@.len() && r@[j] == #[trigger] self@.forward[r@[i].0 as int][s]) || reaches(
                    self@,
                    self@.forward[r@[i].0 as int][s],
                    r@[i],
                ),
    {
        let mut visited: Vec<bool> = vec![false; self.blocks.len()];
        let mut post_order: Vec<BlockId> = Vec::with_capacity(self.blocks.len());
        let entry_block = BlockId(0);
        proof {
            assert(self@.blocks.len() == self.blocks.len());
        }
        proof {
            assert(visited@ =~= Seq::new(self@.len(), |i: int| false));
            assert(post_order@ =~= Seq::<BlockId>::empty());
        }
        self.dfs_post_order(entry_block, &mut visited, &mut post_order);
        let ghost p = post_order@;
        proof {
            assert(p == dfs_spec(self@, BlockId(0), Seq::new(self@.len(), |i: int| false), Seq::empty()).1);
        }
        // reverse the post order
        let mut r: Vec<BlockId> = Vec::with_capacity(post_order.len());
        let mut k: usize = post_order.len();
        while k > 0
            invariant
                k <= post_order.len(),
                post_order@ == p,
                r@.len() == p.len() - k,
                forall|i: int| 0 <= i < r@.len() ==> r@[i] == p[p.len() - 1 - i],
            decreases k,
        {
            k = k - 1;
            r.push(post_order[k]);
        }
        proof {
            let n = self@.len();
            assert(r@ =~= p.reverse());
            assert forall|i: int| 0 <= i < r@.len() implies (#[trigger] r@[i]).0 < n by {
                assert(r@[i] == p[p.len() - 1 - i]);
            }
            assert forall|i: int, j: int| 0 <= i < r@.len() && 0 <= j < r@.len() && i != j implies r@[i] != r@[j] by {
                assert(r@[i] == p[p.len() - 1 - i]);
                assert(r@[j] == p[p.len() - 1 - j]);
            }
            assert forall|i: int, s: int|
                0 <= i < r@.len() && 0 <= s < self@.forward[r@[i].0 as int].len() implies r@.contains(
                    #[trigger] self@.forward[r@[i].0 as int][s],
                ) by {
                let x = p[p.len() - 1 - i];
                assert(r@[i] == x);
                let t = self@.forward[x.0 as int][s];
                assert(visited@[t.0 as int]);
                let kk = choose|kk: int| 0 <= kk < p.len() && (#[trigger] p[kk]).0 == t.0;
                assert(r@[p.len() - 1 - kk] == p[kk]);
            }
            assert forall|i: int, s: int|
                0 <= i < r@.len() && 0 <= s < self@.forward[r@[i].0 as int].len() implies (exists|j: int|
                    i < j < r@.len() && r@[j] == #[trigger] self@.forward[r@[i].0 as int][s]) || reaches(
                    self@,
                    self@.forward[r@[i].0 as int][s],
                    r@[i],
                ) by {
                let k = p.len() - 1 - i;
                assert(r@[i] == p[k]);
                assert(after_succs(self@, p, k));
                let t = self@.forward[p[k].0 as int][s];
                if exists|k2: int| 0 <= k2 < k && p[k2] == t {
                    let k2 = choose|k2: int| 0 <= k2 < k && p[k2] == t;
                    assert(r@[p.len() - 1 - k2] == p[k2]);
                }
            }
            assert forall|i: int| 0 < i < r@.len() implies #[trigger] parent_before(self@, r@, i) by {
                let k = p.len() - 1 - i;
                assert(r@[i] == p[k]);
                assert(parent_after(self@, p, k));
                let k2 = choose|k2: int| k < k2 < p.len() && self@.forward[p[k2].0 as int].contains(p[k]);
                assert(r@[p.len() - 1 - k2] == p[k2]);
            }
        }
        r
    }
}
impl ControlFlowGraph {
    /// Whether the graph is well formed: its blocks are numbered by their position, it has
    /// one list of successors and one of predecessors per block, and every edge ends at one
    /// of its blocks.
    pub fn is_well_formed(&self) -> (r: bool)
        ensures
            r == self@.wf(),
    {
        let ghost g = self@;
        let n = self.blocks.len();
        if self.forward_edges.len() != n || self.backward_edges.len() != n {
            return false;
        }
        let mut i: usize = 0;
        while i < n
            invariant
                g == self@,
                n == g.blocks.len(),
                g.forward.len() == n,
                g.backward.len() == n,
                i <= n,
                forall|k: int| 0 <= k < i ==> (#[trigger] g.blocks[k]).id == BlockId(k as usize),
                forall|k: int, j: int|
                    0 <= k < i && 0 <= j < g.forward[k].len() ==> (#[trigger] g.forward[k][j]).0 < n,
                forall|k: int, j: int|
                    0 <= k < i && 0 <= j < g.backward[k].len() ==> (#[trigger] g.backward[k][j]).0 < n,
            decreases n - i,
        {
            proof {
                assert(g.blocks[i as int] == self.blocks@[i as int]@);
            }
            if self.blocks[i].id.0 != i {
                return false;
            }
            let f = &self.forward_edges[i];
            let bk = &self.backward_edges[i];
            proof {
                assert(g.forward[i as int] == f@);
                assert(g.backward[i as int] == bk@);
            }
            let mut j: usize = 0;
            while j < f.len()
                invariant
                    g == self@,
                    i < n,
                    n == g.blocks.len(),
                    g.forward.len() == n,
                    g.forward[i as int] == f@,
                    j <= f@.len(),
                    forall|jj: int| 0 <= jj < j ==> (#[trigger] f@[jj]).0 < n,
                decreases f@.len() - j,
            {
                if f[j].0 >= n {
                    assert(g.forward[i as int][j as int].0 >= n);
                    return false;
                }
                j = j + 1;
            }
            let mut j: usize = 0;
            while j < bk.len()
                invariant
                    g == self@,
                    i < n,
                    n == g.blocks.len(),
                    g.backward.len() == n,
                    g.backward[i as int] == bk@,
                    j <= bk@.len(),
                    forall|jj: int| 0 <= jj < j ==> (#[trigger] bk@[jj]).0 < n,
                decreases bk@.len() - j,
            {
                if bk[j].0 >= n {
                    assert(g.backward[i as int][j as int].0 >= n);
                    return false;
                }
                j = j + 1;
            }
            i = i + 1;
        }
        true
    }
}


} // verus!
