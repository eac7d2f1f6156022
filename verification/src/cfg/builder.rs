//! Building the control flow graph of a function from its linear instructions.
//!
//! The instructions are cut into basic blocks: a label starts a block and a terminator
//! (`jmp`, `br` or `ret`) ends one. Every block must end with a terminator. A `jmp` adds an
//! edge to the block its label starts, a `br` one edge for each of its two labels.

use vstd::prelude::*;

use crate::cfg::{count_of, lemma_count_push, BasicBlock, BlockId, BlockV, CfgV, ControlFlowGraph};
use crate::module::function::Function;
use crate::module::instruction::{bytes_eq, no_phi, view_instrs, InstrV, Instruction};
use crate::ssa::builder::phi_free;

verus! {

/// Why a control flow graph could not be built.
#[derive(Debug, Clone, Copy, PartialEq, Eq, Structural)]
pub enum CfgError {
    /// The block with this number does not end with a terminator.
    MissingTerminator { block: usize },
}

/// The instructions of each block.
pub open spec fn block_seqs(bs: Seq<BlockV>) -> Seq<Seq<InstrV>> {
    bs.map_values(|b: BlockV| b.instructions)
}

/// The blocks, one after the other.
pub open spec fn flatten(bs: Seq<Seq<InstrV>>) -> Seq<InstrV>
    decreases bs.len(),
{
    if bs.len() == 0 {
        Seq::empty()
    } else {
        flatten(bs.drop_last()) + bs.last()
    }
}

/// No instruction of `b` but the first is a label, and none but the last is a terminator.
pub open spec fn block_shape(b: Seq<InstrV>) -> bool {
    &&& b.len() > 0
    &&& forall|j: int| 0 < j < b.len() ==> !(#[trigger] b[j]).is_label()
    &&& forall|j: int| 0 <= j < b.len() - 1 ==> !(#[trigger] b[j]).is_terminator()
}

/// `bs` cuts `body` into basic blocks: a new block starts exactly where an instruction
/// follows a terminator or where a label stands.
pub open spec fn is_block_split(body: Seq<InstrV>, bs: Seq<Seq<InstrV>>) -> bool {
    &&& flatten(bs) == body
    &&& forall|i: int| 0 <= i < bs.len() ==> block_shape(#[trigger] bs[i])
    &&& forall|i: int|
        0 <= i < bs.len() - 1 ==> (#[trigger] bs[i]).last().is_terminator() || bs[i + 1][0].is_label()
}

/// Block `b` starts with the label `l`.
pub open spec fn starts_with_label(b: Seq<InstrV>, l: Seq<u8>) -> bool {
    b.len() > 0 && b[0] == InstrV::Label(l)
}

/// The last block that starts with the label `l`, if any.
#[verifier::opaque]
pub open spec fn label_block(bs: Seq<Seq<InstrV>>, l: Seq<u8>) -> Option<int> {
    if exists|j: int| 0 <= j < bs.len() && starts_with_label(#[trigger] bs[j], l) {
        Some(
            choose|j: int|
                0 <= j < bs.len() && starts_with_label(bs[j], l) && forall|k: int|
                    j < k < bs.len() ==> !starts_with_label(#[trigger] bs[k], l),
        )
    } else {
        None
    }
}

/// An edge to the block `o` names, if it names one.
pub open spec fn opt_edge(o: Option<int>) -> Seq<BlockId> {
    match o {
        Some(j) => seq![BlockId(j as usize)],
        None => Seq::empty(),
    }
}

/// The successors of block `i`: the target of its final `jmp`, or the targets of its final
/// `br` (first the one taken when the condition holds), when their labels start a block.
pub open spec fn jump_targets(bs: Seq<Seq<InstrV>>, i: int) -> Seq<BlockId> {
    match bs[i].last() {
        InstrV::Jmp(l) => opt_edge(label_block(bs, l)),
        InstrV::Br { true_br, false_br, .. } => opt_edge(label_block(bs, true_br)) + opt_edge(
            label_block(bs, false_br),
        ),
        _ => Seq::empty(),
    }
}

/// The predecessors of block `v` among the first `i` blocks: each block once per edge to
/// `v`, in the order of the blocks.
pub open spec fn preds_list(bs: Seq<Seq<InstrV>>, v: int, i: int) -> Seq<BlockId>
    decreases i,
{
    if i <= 0 {
        Seq::empty()
    } else {
        preds_list(bs, v, i - 1) + Seq::new(
            count_of(jump_targets(bs, i - 1), BlockId(v as usize)),
            |k: int| BlockId((i - 1) as usize),
        )
    }
}

/// `g` is the control flow graph of `body`.
pub open spec fn is_cfg_of(body: Seq<InstrV>, g: CfgV) -> bool {
    let bs = block_seqs(g.blocks);
    &&& g.wf()
    &&& g.mirrored()
    &&& is_block_split(body, bs)
    &&& forall|i: int| 0 <= i < bs.len() ==> (#[trigger] bs[i]).last().is_terminator()
    &&& forall|i: int| 0 <= i < bs.len() ==> #[trigger] g.forward[i] == jump_targets(bs, i)
    &&& forall|v: int| 0 <= v < bs.len() ==> #[trigger] g.backward[v] == preds_list(bs, v, bs.len() as int)
}

/// Why `body` has no control flow graph: in its cut into blocks, block `block` is the first
/// that does not end with a terminator.
pub open spec fn lacks_terminator(body: Seq<InstrV>, block: usize) -> bool {
    exists|bs: Seq<Seq<InstrV>>|
        #[trigger] is_block_split(body, bs) && block < bs.len() && !bs[block as int].last().is_terminator()
            && forall|i: int| 0 <= i < block ==> (#[trigger] bs[i]).last().is_terminator()
}

proof fn lemma_flatten_first(bs: Seq<Seq<InstrV>>)
    requires
        bs.len() > 0,
    ensures
        flatten(bs) == bs[0] + flatten(bs.drop_first()),
    decreases bs.len(),
{
    if bs.len() == 1 {
        assert(bs.drop_last() =~= Seq::<Seq<InstrV>>::empty());
        assert(bs.drop_first() =~= Seq::<Seq<InstrV>>::empty());
        assert(bs[0] + Seq::<InstrV>::empty() =~= bs[0]);
        assert(Seq::<InstrV>::empty() + bs[0] =~= bs[0]);
    } else {
        lemma_flatten_first(bs.drop_last());
        assert(bs.drop_first().drop_last() =~= bs.drop_last().drop_first());
        assert(bs.drop_first().last() == bs.last());
        assert(bs.drop_last()[0] == bs[0]);
        let x = flatten(bs.drop_last().drop_first());
        assert(bs[0] + x + bs.last() =~= bs[0] + (x + bs.last()));
    }
}

/// What is left of a cut into blocks once its first block is taken off.
proof fn lemma_split_rest(body: Seq<InstrV>, bs: Seq<Seq<InstrV>>)
    requires
        is_block_split(body, bs),
        bs.len() > 0,
    ensures
        body == bs[0] + flatten(bs.drop_first()),
        is_block_split(body.skip(bs[0].len() as int), bs.drop_first()),
{
    lemma_flatten_first(bs);
    let rest = bs.drop_first();
    assert(body.skip(bs[0].len() as int) =~= flatten(rest));
    assert forall|i: int| 0 <= i < rest.len() implies block_shape(#[trigger] rest[i]) by {
        assert(rest[i] == bs[i + 1]);
    }
    assert forall|i: int| 0 <= i < rest.len() - 1 implies (#[trigger] rest[i]).last().is_terminator() || rest[i + 1][0].is_label() by {
        assert(rest[i] == bs[i + 1]);
        assert(rest[i + 1] == bs[i + 2]);
    }
}

/// The cut of a body into basic blocks is unique: [`is_block_split`] determines the blocks.
pub proof fn lemma_block_split_unique(body: Seq<InstrV>, bs1: Seq<Seq<InstrV>>, bs2: Seq<Seq<InstrV>>)
    requires
        is_block_split(body, bs1),
        is_block_split(body, bs2),
    ensures
        bs1 == bs2,
    decreases bs1.len(),
{
    if bs1.len() == 0 || bs2.len() == 0 {
        if bs1.len() > 0 {
            lemma_split_rest(body, bs1);
            assert(block_shape(bs1[0]));
        }
        if bs2.len() > 0 {
            lemma_split_rest(body, bs2);
            assert(block_shape(bs2[0]));
        }
        assert(bs1 =~= bs2);
    } else {
        lemma_split_rest(body, bs1);
        lemma_split_rest(body, bs2);
        let a = bs1[0];
        let b = bs2[0];
        assert(block_shape(a));
        assert(block_shape(b));
        if a.len() != b.len() {
            let (x, y, xs) = if a.len() < b.len() {
                (a, b, bs1)
            } else {
                (b, a, bs2)
            };
            // `x` ends inside `y`: where `x` ends no terminator stands, and after it no label
            let n = x.len() as int;
            assert(body[n - 1] == x[n - 1]);
            assert(body[n - 1] == y[n - 1]);
            assert(!y[n - 1].is_terminator());
            assert(xs.len() > 1) by {
                if xs.len() == 1 {
                    assert(xs.drop_first() =~= Seq::<Seq<InstrV>>::empty());
                    assert(body.len() == n);
                }
            }
            lemma_flatten_first(xs.drop_first());
            assert(xs.drop_first()[0] == xs[1]);
            assert(block_shape(xs[1]));
            assert(body[n] == xs[1][0]);
            assert(body[n] == y[n]);
            assert(!y[n].is_label());
            assert(xs[0].last().is_terminator() || xs[1][0].is_label());
            assert(false);
        }
        assert(a =~= b) by {
            assert forall|i: int| 0 <= i < a.len() implies a[i] == b[i] by {
                assert(body[i] == a[i]);
                assert(body[i] == b[i]);
            }
        }
        lemma_block_split_unique(body.skip(a.len() as int), bs1.drop_first(), bs2.drop_first());
        assert(bs1 =~= seq![a] + bs1.drop_first());
        assert(bs2 =~= seq![b] + bs2.drop_first());
    }
}

/// A body has at most one control flow graph: blocks, numbers and edges are all determined
/// by the instructions.
pub proof fn lemma_cfg_of_unique(body: Seq<InstrV>, g: CfgV, h: CfgV)
    requires
        is_cfg_of(body, g),
        is_cfg_of(body, h),
    ensures
        g == h,
{
    let bg = block_seqs(g.blocks);
    let bh = block_seqs(h.blocks);
    lemma_block_split_unique(body, bg, bh);
    assert(g.blocks.len() == h.blocks.len());
    assert forall|i: int| 0 <= i < g.blocks.len() implies g.blocks[i] == h.blocks[i] by {
        assert(g.blocks[i].instructions == bg[i]);
        assert(h.blocks[i].instructions == bh[i]);
    }
    assert(g.blocks =~= h.blocks);
    assert forall|i: int| 0 <= i < g.forward.len() implies g.forward[i] == h.forward[i] by {
        assert(g.forward[i] == jump_targets(bg, i));
        assert(h.forward[i] == jump_targets(bh, i));
    }
    assert(g.forward =~= h.forward);
    assert forall|i: int| 0 <= i < g.backward.len() implies g.backward[i] == h.backward[i] by {
        assert(g.backward[i] == preds_list(bg, i, bg.len() as int));
        assert(h.backward[i] == preds_list(bh, i, bh.len() as int));
    }
    assert(g.backward =~= h.backward);
}

/// The block without a terminator that [`lacks_terminator`] names is the same whichever way
/// it is found, and a body that has one has no control flow graph.
pub proof fn lemma_missing_terminator_unique(body: Seq<InstrV>, k1: usize, k2: usize, g: CfgV)
    requires
        lacks_terminator(body, k1),
    ensures
        lacks_terminator(body, k2) ==> k1 == k2,
        !is_cfg_of(body, g),
{
    let bs1 = choose|bs: Seq<Seq<InstrV>>|
        #[trigger] is_block_split(body, bs) && k1 < bs.len() && !bs[k1 as int].last().is_terminator() && forall|i: int|
            0 <= i < k1 ==> (#[trigger] bs[i]).last().is_terminator();
    if lacks_terminator(body, k2) {
        let bs2 = choose|bs: Seq<Seq<InstrV>>|
            #[trigger] is_block_split(body, bs) && k2 < bs.len() && !bs[k2 as int].last().is_terminator() && forall|i: int|
                0 <= i < k2 ==> (#[trigger] bs[i]).last().is_terminator();
        lemma_block_split_unique(body, bs1, bs2);
        if k1 < k2 {
            assert(bs2[k1 as int].last().is_terminator());
        } else if k2 < k1 {
            assert(bs1[k2 as int].last().is_terminator());
        }
    }
    if is_cfg_of(body, g) {
        lemma_block_split_unique(body, bs1, block_seqs(g.blocks));
        assert(block_seqs(g.blocks)[k1 as int].last().is_terminator());
    }
}

/// Every instruction of a block stands somewhere in the flattened blocks.
proof fn lemma_flatten_has(bs: Seq<Seq<InstrV>>, b: int, i: int)
    requires
        0 <= b < bs.len(),
        0 <= i < bs[b].len(),
    ensures
        exists|j: int| 0 <= j < flatten(bs).len() && flatten(bs)[j] == bs[b][i],
    decreases bs.len(),
{
    let f = flatten(bs.drop_last());
    assert(flatten(bs) == f + bs.last());
    if b == bs.len() - 1 {
        assert(flatten(bs)[f.len() + i] == bs[b][i]);
    } else {
        lemma_flatten_has(bs.drop_last(), b, i);
        let j = choose|j: int| 0 <= j < f.len() && f[j] == bs.drop_last()[b][i];
        assert(flatten(bs)[j] == f[j]);
    }
}

/// The graph of a body without phi nodes has none.
pub proof fn lemma_cfg_of_phi_free(body: Seq<InstrV>, g: CfgV)
    requires
        is_cfg_of(body, g),
        no_phi(body),
    ensures
        phi_free(g),
{
    let bs = block_seqs(g.blocks);
    assert forall|b: int, i: int| 0 <= b < g.len() && 0 <= i < g.blocks[b].instructions.len() implies !(
    #[trigger] g.blocks[b].instructions[i] is Phi) by {
        assert(bs[b] == g.blocks[b].instructions);
        lemma_flatten_has(bs, b, i);
        let j = choose|j: int| 0 <= j < flatten(bs).len() && flatten(bs)[j] == bs[b][i];
        assert(body[j] == bs[b][i]);
    }
}

proof fn lemma_flatten_push(bs: Seq<Seq<InstrV>>, b: Seq<InstrV>)
    ensures
        flatten(bs.push(b)) == flatten(bs) + b,
{
    assert(bs.push(b).drop_last() =~= bs);
}

/// The instructions of `body` cut into basic blocks, numbered in order.
fn split_into_blocks(body: &Vec<Instruction>) -> (blocks: Vec<BasicBlock>)
    ensures
        is_block_split(view_instrs(body@), block_seqs(blocks@.map_values(|b: BasicBlock| b@))),
        forall|i: int| 0 <= i < blocks@.len() ==> (#[trigger] blocks@[i]).id == BlockId(i as usize),
{
    let ghost s = view_instrs(body@);
    let mut blocks: Vec<BasicBlock> = Vec::new();
    let mut cur: Vec<Instruction> = Vec::new();
    let mut i: usize = 0;
    while i < body.len()
        invariant
            s == view_instrs(body@),
            i <= body.len(),
            blocks@.len() <= i,
            forall|b: int| 0 <= b < blocks@.len() ==> (#[trigger] blocks@[b]).id == BlockId(b as usize),
            ({
                let d = block_seqs(blocks@.map_values(|b: BasicBlock| b@));
                let c = view_instrs(cur@);
                &&& flatten(d) + c == s.take(i as int)
                &&& forall|b: int| 0 <= b < d.len() ==> block_shape(#[trigger] d[b])
                &&& forall|b: int| 0 <= b < d.len() - 1 ==> (#[trigger] d[b]).last().is_terminator() || d[b + 1][0].is_label()
                &&& forall|j: int| 0 < j < c.len() ==> !(#[trigger] c[j]).is_label()
                &&& forall|j: int| 0 <= j < c.len() ==> !(#[trigger] c[j]).is_terminator()
                &&& c.len() > 0 && d.len() > 0 ==> d.last().last().is_terminator() || c[0].is_label()
                &&& c.len() == 0 && d.len() > 0 ==> d.last().last().is_terminator()
            }),
        decreases body.len() - i,
    {
        let ghost d0 = block_seqs(blocks@.map_values(|b: BasicBlock| b@));
        let ghost c0 = view_instrs(cur@);
        if body[i].is_label() && cur.len() > 0 {
            let id = BlockId(blocks.len());
            let ghost bl = blocks@;
            let mut finished: Vec<Instruction> = Vec::new();
            std::mem::swap(&mut cur, &mut finished);
            blocks.push(BasicBlock { id, instructions: finished });
            proof {
                let d1 = block_seqs(blocks@.map_values(|b: BasicBlock| b@));
                assert(d1 =~= d0.push(c0));
                lemma_flatten_push(d0, c0);
                assert(view_instrs(cur@) =~= Seq::<InstrV>::empty());
                assert(block_shape(c0));
                assert forall|b: int| 0 <= b < blocks@.len() implies (#[trigger] blocks@[b]).id == BlockId(b as usize) by {
                    if b < bl.len() {
                        assert(blocks@[b] == bl[b]);
                    }
                }
                assert forall|b: int| 0 <= b < d1.len() - 1 implies (#[trigger] d1[b]).last().is_terminator()
                    || d1[b + 1][0].is_label() by {
                    if b < d0.len() - 1 {
                        assert(d1[b] == d0[b] && d1[b + 1] == d0[b + 1]);
                    } else {
                        assert(d1[b] == d0.last());
                        assert(d1[b + 1] == c0);
                    }
                }
            }
        }
        let is_term = body[i].is_terminator();
        let x = body[i].duplicate();
        let ghost d1 = block_seqs(blocks@.map_values(|b: BasicBlock| b@));
        let ghost c1 = view_instrs(cur@);
        cur.push(x);
        proof {
            assert(x@ == s[i as int]);
            assert(view_instrs(cur@) =~= c1.push(x@));
            assert(s.take(i + 1) =~= s.take(i as int).push(s[i as int]));
            assert(flatten(d1) + view_instrs(cur@) =~= s.take(i + 1));
            let c2 = view_instrs(cur@);
            assert forall|j: int| 0 < j < c2.len() implies !(#[trigger] c2[j]).is_label() by {
                if j == c2.len() - 1 {
                    assert(c1.len() == 0 || !x@.is_label());
                    if c1.len() == 0 {
                        assert(j == 0);
                    }
                } else {
                    assert(c2[j] == c1[j]);
                }
            }
            assert(c2[0] == if c1.len() > 0 {
                c1[0]
            } else {
                x@
            });
        }
        if is_term {
            let id = BlockId(blocks.len());
            let ghost bl = blocks@;
            let ghost c2 = view_instrs(cur@);
            let mut finished: Vec<Instruction> = Vec::new();
            std::mem::swap(&mut cur, &mut finished);
            blocks.push(BasicBlock { id, instructions: finished });
            proof {
                let d2 = block_seqs(blocks@.map_values(|b: BasicBlock| b@));
                assert(d2 =~= d1.push(c2));
                lemma_flatten_push(d1, c2);
                assert(view_instrs(cur@) =~= Seq::<InstrV>::empty());
                assert(flatten(d2) + view_instrs(cur@) =~= s.take(i + 1));
                assert(block_shape(c2)) by {
                    assert forall|j: int| 0 <= j < c2.len() - 1 implies !(#[trigger] c2[j]).is_terminator() by {
                        assert(c2[j] == c1[j]);
                    }
                }
                assert forall|b: int| 0 <= b < blocks@.len() implies (#[trigger] blocks@[b]).id == BlockId(b as usize) by {
                    if b < bl.len() {
                        assert(blocks@[b] == bl[b]);
                    }
                }
                assert forall|b: int| 0 <= b < d2.len() - 1 implies (#[trigger] d2[b]).last().is_terminator()
                    || d2[b + 1][0].is_label() by {
                    if b < d1.len() - 1 {
                        assert(d2[b] == d1[b] && d2[b + 1] == d1[b + 1]);
                    } else {
                        assert(d2[b] == d1.last());
                        assert(d2[b + 1] == c2);
                    }
                }
                assert(d2.last() == c2);
                assert(c2.last() == x@);
            }
        }
        i = i + 1;
    }
    let ghost d = block_seqs(blocks@.map_values(|b: BasicBlock| b@));
    let ghost c = view_instrs(cur@);
    if cur.len() > 0 {
        let id = BlockId(blocks.len());
        let ghost bl = blocks@;
        blocks.push(BasicBlock { id, instructions: cur });
        proof {
            let d1 = block_seqs(blocks@.map_values(|b: BasicBlock| b@));
            assert(d1 =~= d.push(c));
            lemma_flatten_push(d, c);
            assert forall|b: int| 0 <= b < blocks@.len() implies (#[trigger] blocks@[b]).id == BlockId(b as usize) by {
                if b < bl.len() {
                    assert(blocks@[b] == bl[b]);
                }
            }
            assert forall|b: int| 0 <= b < d1.len() - 1 implies (#[trigger] d1[b]).last().is_terminator()
                || d1[b + 1][0].is_label() by {
                if b < d.len() - 1 {
                    assert(d1[b] == d[b] && d1[b + 1] == d[b + 1]);
                } else {
                    assert(d1[b] == d.last());
                    assert(d1[b + 1] == c);
                }
            }
        }
    } else {
        proof {
            assert(c =~= Seq::<InstrV>::empty());
            assert(flatten(d) + c =~= flatten(d));
        }
    }
    proof {
        assert(s.take(body.len() as int) =~= s);
    }
    blocks
}

/// The instructions of the blocks of a list of blocks.
pub open spec fn blocks_view(blocks: Seq<BasicBlock>) -> Seq<Seq<InstrV>> {
    block_seqs(blocks.map_values(|b: BasicBlock| b@))
}

/// The number of the last block that starts with the label `l`.
fn find_label_block(blocks: &Vec<BasicBlock>, l: &Vec<u8>) -> (r: Option<usize>)
    ensures
        match r {
            Some(j) => label_block(blocks_view(blocks@), l@) == Some(j as int) && j < blocks@.len(),
            None => label_block(blocks_view(blocks@), l@) is None,
        },
{
    let ghost bs = blocks_view(blocks@);
    reveal(label_block);
    let mut j: usize = blocks.len();
    while j > 0
        invariant
            j <= blocks@.len(),
            bs == blocks_view(blocks@),
            forall|k: int| j <= k < bs.len() ==> !starts_with_label(#[trigger] bs[k], l@),
        decreases j,
    {
        let ins = &blocks[j - 1].instructions;
        proof {
            assert(bs[j - 1] == view_instrs(ins@));
        }
        if ins.len() > 0 {
            if let Instruction::Label(name) = &ins[0] {
                proof {
                    assert(bs[j - 1][0] == ins@[0]@);
                }
                if bytes_eq(name, l) {
                    proof {
                        reveal(label_block);
                        let w = (j - 1) as int;
                        assert(starts_with_label(bs[w], l@));
                        let c = choose|c: int|
                            0 <= c < bs.len() && starts_with_label(bs[c], l@) && forall|k: int|
                                c < k < bs.len() ==> !starts_with_label(#[trigger] bs[k], l@);
                        assert(0 <= w < bs.len() && starts_with_label(bs[w], l@) && forall|k: int|
                            w < k < bs.len() ==> !starts_with_label(#[trigger] bs[k], l@));
                        if c < w {
                            assert(!starts_with_label(bs[w], l@));
                        }
                        if c > w {
                            assert(!starts_with_label(bs[c], l@));
                        }
                    }
                    return Some(j - 1);
                }
            }
        }
        proof {
            if starts_with_label(bs[j - 1], l@) {
                assert(bs[j - 1][0] == ins@[0]@);
            }
        }
        j = j - 1;
    }
    None
}

/// The successors of block `i`, in the order of [`jump_targets`].
fn block_targets(blocks: &Vec<BasicBlock>, i: usize) -> (t: Vec<BlockId>)
    requires
        i < blocks@.len(),
        blocks@[i as int].instructions@.len() > 0,
    ensures
        t@ == jump_targets(blocks_view(blocks@), i as int),
        forall|k: int| 0 <= k < t@.len() ==> (#[trigger] t@[k]).0 < blocks@.len(),
{
    let ghost bs = blocks_view(blocks@);
    let ins = &blocks[i].instructions;
    let last = &ins[ins.len() - 1];
    proof {
        assert(bs[i as int] == view_instrs(ins@));
        assert(bs[i as int].last() == last@);
    }
    let mut t: Vec<BlockId> = Vec::new();
    match last {
        Instruction::Jmp(l) => {
            if let Some(j) = find_label_block(blocks, l) {
                t.push(BlockId(j));
            }
            proof {
                assert(t@ =~= jump_targets(bs, i as int));
            }
        },
        Instruction::Br { true_br, false_br, .. } => {
            if let Some(j) = find_label_block(blocks, true_br) {
                t.push(BlockId(j));
            }
            let ghost t1 = t@;
            if let Some(j) = find_label_block(blocks, false_br) {
                t.push(BlockId(j));
            }
            proof {
                assert(t1 =~= opt_edge(label_block(bs, true_br@)));
                assert(t@ =~= t1 + opt_edge(label_block(bs, false_br@)));
            }
        },
        _ => {
            proof {
                assert(t@ =~= jump_targets(bs, i as int));
            }
        },
    }
    t
}

proof fn lemma_repeat_push(c: nat, x: BlockId)
    ensures
        Seq::new(c + 1, |k: int| x) == Seq::new(c, |k: int| x).push(x),
{
    assert(Seq::new(c + 1, |k: int| x) =~= Seq::new(c, |k: int| x).push(x));
}

/// The control flow graph of a function body: the blocks of its cut into basic blocks, an
/// edge for each label that a final `jmp` or `br` names, and the predecessors of each block
/// in the order of the blocks. Fails when a block does not end with a terminator.
pub fn cfg_from_body(body: &Vec<Instruction>) -> (r: Result<ControlFlowGraph, CfgError>)
    ensures
        match r {
            Ok(g) => is_cfg_of(view_instrs(body@), g@),
            Err(CfgError::MissingTerminator { block }) => lacks_terminator(view_instrs(body@), block),
        },
{
    let blocks = split_into_blocks(body);
    let ghost bs = blocks_view(blocks@);
    assert(bs == block_seqs(blocks@.map_values(|b: BasicBlock| b@)));
    let n = blocks.len();
    let mut i: usize = 0;
    while i < n
        invariant
            n == blocks@.len(),
            bs == blocks_view(blocks@),
            is_block_split(view_instrs(body@), bs),
            i <= n,
            forall|k: int| 0 <= k < i ==> (#[trigger] bs[k]).last().is_terminator(),
        decreases n - i,
    {
        let ins = &blocks[i].instructions;
        proof {
            assert(bs[i as int] == view_instrs(ins@));
            assert(block_shape(bs[i as int]));
        }
        if !ins[ins.len() - 1].is_terminator() {
            proof {
                assert(bs[i as int].last() == ins@[ins@.len() - 1]@);
                assert(lacks_terminator(view_instrs(body@), i));
            }
            return Err(CfgError::MissingTerminator { block: i });
        }
        proof {
            assert(bs[i as int].last() == ins@[ins@.len() - 1]@);
        }
        i = i + 1;
    }
    let mut forward_edges: Vec<Vec<BlockId>> = Vec::new();
    let mut backward_edges: Vec<Vec<BlockId>> = Vec::new();
    let mut k: usize = 0;
    while k < n
        invariant
            k <= n,
            forward_edges@.len() == k,
            backward_edges@.len() == k,
            forall|j: int| 0 <= j < k ==> (#[trigger] forward_edges@[j])@.len() == 0,
            forall|j: int| 0 <= j < k ==> (#[trigger] backward_edges@[j])@.len() == 0,
        decreases n - k,
    {
        forward_edges.push(Vec::new());
        backward_edges.push(Vec::new());
        k = k + 1;
    }
    let mut g = ControlFlowGraph { blocks, forward_edges, backward_edges };
    proof {
        assert(block_seqs(g@.blocks) =~= bs);
        assert forall|v: int| 0 <= v < n implies (#[trigger] g@.backward[v]) == preds_list(bs, v, 0) by {
            assert(g@.backward[v] =~= Seq::<BlockId>::empty());
        }
        assert forall|u: int, v: int| 0 <= u < n && 0 <= v < n implies count_of(
            #[trigger] g@.forward[u],
            BlockId(v as usize),
        ) == count_of(#[trigger] g@.backward[v], BlockId(u as usize)) by {
            assert(g@.forward[u] =~= Seq::<BlockId>::empty());
            assert(g@.backward[v] =~= Seq::<BlockId>::empty());
        }
        assert forall|j: int| 0 <= j < n implies #[trigger] g@.forward[j] == Seq::<BlockId>::empty() by {
            assert(g@.forward[j] =~= Seq::<BlockId>::empty());
        }
    }
    let mut i: usize = 0;
    while i < n
        invariant
            n == g@.len(),
            g@.wf(),
            g@.mirrored(),
            block_seqs(g@.blocks) == bs,
            bs == blocks_view(g.blocks@),
            is_block_split(view_instrs(body@), bs),
            forall|k: int| 0 <= k < n ==> (#[trigger] bs[k]).last().is_terminator(),
            i <= n,
            forall|j: int| 0 <= j < i ==> #[trigger] g@.forward[j] == jump_targets(bs, j),
            forall|j: int| i <= j < n ==> #[trigger] g@.forward[j] == Seq::<BlockId>::empty(),
            forall|v: int| 0 <= v < n ==> #[trigger] g@.backward[v] == preds_list(bs, v, i as int),
        decreases n - i,
    {
        proof {
            assert(block_shape(bs[i as int]));
            assert(bs[i as int] == view_instrs(g.blocks@[i as int].instructions@));
        }
        let targets = block_targets(&g.blocks, i);
        let mut j: usize = 0;
        while j < targets.len()
            invariant
                n == g@.len(),
                g@.wf(),
                g@.mirrored(),
                block_seqs(g@.blocks) == bs,
                bs == blocks_view(g.blocks@),
                i < n,
                targets@ == jump_targets(bs, i as int),
                forall|k: int| 0 <= k < targets@.len() ==> (#[trigger] targets@[k]).0 < n,
                j <= targets@.len(),
                forall|jj: int| 0 <= jj < i ==> #[trigger] g@.forward[jj] == jump_targets(bs, jj),
                forall|jj: int| i < jj < n ==> #[trigger] g@.forward[jj] == Seq::<BlockId>::empty(),
                g@.forward[i as int] == targets@.take(j as int),
                forall|v: int|
                    0 <= v < n ==> #[trigger] g@.backward[v] == preds_list(bs, v, i as int) + Seq::new(
                        count_of(targets@.take(j as int), BlockId(v as usize)),
                        |k: int| BlockId(i as usize),
                    ),
            decreases targets@.len() - j,
        {
            let t = targets[j];
            let ghost g0 = g@;
            g.add_edge(BlockId(i), t);
            proof {
                assert(targets@.take(j + 1) =~= targets@.take(j as int).push(t));
                assert forall|v: int| 0 <= v < n implies #[trigger] g@.backward[v] == preds_list(bs, v, i as int)
                    + Seq::new(count_of(targets@.take(j + 1), BlockId(v as usize)), |k: int| BlockId(i as usize)) by {
                    lemma_count_push(targets@.take(j as int), t, BlockId(v as usize));
                    let c = count_of(targets@.take(j as int), BlockId(v as usize));
                    if t == BlockId(v as usize) {
                        assert(v == t.0);
                        lemma_repeat_push(c, BlockId(i as usize));
                        assert(g@.backward[v] == g0.backward[v].push(BlockId(i as usize)));
                        assert(g@.backward[v] =~= preds_list(bs, v, i as int) + Seq::new(c + 1, |k: int| BlockId(i as usize)));
                    } else {
                        assert(v != t.0);
                        assert(g@.backward[v] == g0.backward[v]);
                    }
                }
                assert forall|jj: int| 0 <= jj < i implies #[trigger] g@.forward[jj] == jump_targets(bs, jj) by {
                    assert(g@.forward[jj] == g0.forward[jj]);
                }
                assert forall|jj: int| i < jj < n implies #[trigger] g@.forward[jj] == Seq::<BlockId>::empty() by {
                    assert(g@.forward[jj] == g0.forward[jj]);
                }
            }
            j = j + 1;
        }
        proof {
            assert(targets@.take(targets@.len() as int) =~= targets@);
            assert forall|v: int| 0 <= v < n implies #[trigger] g@.backward[v] == preds_list(bs, v, i + 1) by {
                assert(preds_list(bs, v, i + 1) == preds_list(bs, v, i as int) + Seq::new(
                    count_of(jump_targets(bs, i as int), BlockId(v as usize)),
                    |k: int| BlockId(i as usize),
                ));
            }
        }
        i = i + 1;
    }
    proof {
        assert(is_cfg_of(view_instrs(body@), g@));
    }
    Ok(g)
}

/// Builds the control flow graph of one function.
pub struct CfgBuilder {
    pub func: Function,
}

impl CfgBuilder {
    /// A builder for the graph of `func`.
    pub fn new(func: Function) -> (r: Self)
        ensures
            r.func == func,
    {
        CfgBuilder { func }
    }

    /// Moves the body of the function into the blocks of its control flow graph. On failure
    /// the function is left as it was.
    pub fn build_cfg(&mut self) -> (r: Result<(), CfgError>)
        ensures
            match r {
                Ok(()) => {
                    &&& is_cfg_of(view_instrs(old(self).func.body@), final(self).func.cfg@)
                    &&& final(self).func.body@.len() == 0
                    &&& final(self).func.name == old(self).func.name
                    &&& final(self).func.params == old(self).func.params
                    &&& final(self).func.ty == old(self).func.ty
                    &&& final(self).func.is_extern == old(self).func.is_extern
                },
                Err(CfgError::MissingTerminator { block }) => {
                    &&& lacks_terminator(view_instrs(old(self).func.body@), block)
                    &&& *final(self) == *old(self)
                },
            },
    {
        match cfg_from_body(&self.func.body) {
            Ok(g) => {
                self.func.cfg = g;
                self.func.body = Vec::new();
                Ok(())
            },
            Err(e) => Err(e),
        }
    }

    /// The function, with whatever the builder did to it.
    pub fn into_function(self) -> (f: Function)
        ensures
            f == self.func,
    {
        self.func
    }
}

} // verus!
