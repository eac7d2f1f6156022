//! Turning a set of parallel moves (the copies that the phi nodes of a block stand for)
//! into a sequence of copy instructions with the same effect.

use vstd::prelude::*;

use crate::module::instruction::{view_instrs, InstrV, Instruction, Type, Value, ValueV};

verus! {

/// A move, like a `copy` instruction: `dst` receives `src`.
#[derive(Debug)]
pub struct Move {
    pub dst: usize,
    pub src: Value,
    pub ty: Type,
}

/// The mathematical view of a [`Move`].
pub struct MoveV {
    pub dst: usize,
    pub src: ValueV,
    pub ty: Type,
}

impl View for Move {
    type V = MoveV;

    open spec fn view(&self) -> MoveV {
        MoveV { dst: self.dst, src: self.src@, ty: self.ty }
    }
}

pub open spec fn view_move(m: Move) -> MoveV {
    m@
}

pub open spec fn view_moves(s: Seq<Move>) -> Seq<MoveV> {
    s.map_values(|m: Move| view_move(m))
}

/// What a value denotes in a state that gives each virtual register a value.
pub open spec fn read_value(st: spec_fn(usize) -> ValueV, v: ValueV) -> ValueV {
    match v {
        ValueV::Vreg(r) => st(r),
        _ => v,
    }
}

/// The state after one instruction: a copy updates its destination, anything else
/// leaves the registers as they are.
pub open spec fn apply_copy(ins: InstrV, st: spec_fn(usize) -> ValueV) -> spec_fn(usize) -> ValueV {
    match ins {
        InstrV::Copy { vreg, val, .. } => |r: usize| if r == vreg { read_value(st, val) } else { st(r) },
        _ => st,
    }
}

/// The state after running a sequence of instructions one after the other.
pub open spec fn run_copies(ins: Seq<InstrV>, st: spec_fn(usize) -> ValueV) -> spec_fn(usize) -> ValueV
    decreases ins.len(),
{
    if ins.len() == 0 {
        st
    } else {
        apply_copy(ins.last(), run_copies(ins.drop_last(), st))
    }
}

/// Whether some move writes register `r`.
pub open spec fn writes(p: Seq<MoveV>, r: usize) -> bool {
    exists|k: int| 0 <= k < p.len() && p[k].dst == r
}

/// The value that register `r` holds after all moves of `p` happened at once.
pub open spec fn moved_value(p: Seq<MoveV>, st: spec_fn(usize) -> ValueV, r: usize) -> ValueV {
    if writes(p, r) {
        read_value(st, p[choose|k: int| 0 <= k < p.len() && p[k].dst == r].src)
    } else {
        st(r)
    }
}

/// No two moves write the same register.
pub open spec fn distinct_dsts(p: Seq<MoveV>) -> bool {
    forall|i: int, j: int| 0 <= i < p.len() && 0 <= j < p.len() && i != j ==> p[i].dst != p[j].dst
}

/// Every register that a move writes or reads is below `bound`.
pub open spec fn regs_below(p: Seq<MoveV>, bound: usize) -> bool {
    forall|i: int|
        0 <= i < p.len() ==> (#[trigger] p[i]).dst < bound && (p[i].src matches ValueV::Vreg(s) ==> s < bound)
}

pub open spec fn is_self_move(m: MoveV) -> bool {
    m.src == ValueV::Vreg(m.dst)
}

/// The moves of `p` that do not copy a register into itself, in order.
pub open spec fn non_self(p: Seq<MoveV>) -> Seq<MoveV> {
    p.filter(|m: MoveV| !is_self_move(m))
}

/// No other move of `p` reads the register that move `i` writes.
pub open spec fn ready(p: Seq<MoveV>, i: int) -> bool {
    forall|j: int| 0 <= j < p.len() && j != i ==> p[j].src != ValueV::Vreg(p[i].dst)
}

proof fn lemma_moved_value_at(p: Seq<MoveV>, st: spec_fn(usize) -> ValueV, k: int)
    requires
        distinct_dsts(p),
        0 <= k < p.len(),
    ensures
        moved_value(p, st, p[k].dst) == read_value(st, p[k].src),
{
    assert(writes(p, p[k].dst));
    let c = choose|c: int| 0 <= c < p.len() && p[c].dst == p[k].dst;
    assert(c == k);
}

proof fn lemma_run_push(e: Seq<InstrV>, c: InstrV, st: spec_fn(usize) -> ValueV)
    ensures
        run_copies(e.push(c), st) == apply_copy(c, run_copies(e, st)),
{
    assert(e.push(c).drop_last() =~= e);
}

/// Removing a ready move and performing it first does not change what the parallel
/// moves compute.
proof fn lemma_step_ready(p: Seq<MoveV>, k: int, tau: spec_fn(usize) -> ValueV, r: usize)
    requires
        distinct_dsts(p),
        0 <= k < p.len(),
        ready(p, k),
    ensures
        moved_value(
            p.remove(k),
            apply_copy(InstrV::Copy { vreg: p[k].dst, val: p[k].src, ty: p[k].ty }, tau),
            r,
        ) == moved_value(p, tau, r),
{
    let d = p[k].dst;
    let c = InstrV::Copy { vreg: d, val: p[k].src, ty: p[k].ty };
    let tau2 = apply_copy(c, tau);
    let q = p.remove(k);
    assert(distinct_dsts(q));
    if r == d {
        lemma_moved_value_at(p, tau, k);
        assert(!writes(q, r));
    } else if writes(p, r) {
        let j = choose|j: int| 0 <= j < p.len() && p[j].dst == r;
        lemma_moved_value_at(p, tau, j);
        assert(j != k);
        let jq = if j < k { j } else { j - 1 };
        assert(q[jq] == p[j]);
        lemma_moved_value_at(q, tau2, jq);
        assert(p[j].src != ValueV::Vreg(d));
    } else {
        assert forall|j: int| 0 <= j < q.len() implies q[j].dst != r by {
            if j < k {
                assert(q[j] == p[j]);
            } else {
                assert(q[j] == p[j + 1]);
            }
        }
        assert(!writes(q, r));
    }
}

/// Copying the destination of the first move into a fresh register, and redirecting
/// every read of that destination to the fresh register, does not change what the
/// parallel moves compute on the other registers.
proof fn lemma_step_temp(
    p: Seq<MoveV>,
    q: Seq<MoveV>,
    t: usize,
    tau: spec_fn(usize) -> ValueV,
    r: usize,
)
    requires
        distinct_dsts(p),
        p.len() > 0,
        regs_below(p, t),
        r != t,
        q.len() == p.len(),
        forall|i: int|
            0 <= i < p.len() ==> (#[trigger] q[i]).dst == p[i].dst && q[i].ty == p[i].ty && q[i].src == (
            if p[i].src == ValueV::Vreg(p[0].dst) {
                ValueV::Vreg(t)
            } else {
                p[i].src
            }),
    ensures
        moved_value(q, apply_copy(InstrV::Copy { vreg: t, val: ValueV::Vreg(p[0].dst), ty: p[0].ty }, tau), r)
            == moved_value(p, tau, r),
{
    let tau1 = apply_copy(InstrV::Copy { vreg: t, val: ValueV::Vreg(p[0].dst), ty: p[0].ty }, tau);
    assert(distinct_dsts(q));
    if writes(p, r) {
        let j = choose|j: int| 0 <= j < p.len() && p[j].dst == r;
        lemma_moved_value_at(p, tau, j);
        lemma_moved_value_at(q, tau1, j);
        assert(q[j] == q[j]);
    } else {
        assert forall|j: int| 0 <= j < q.len() implies q[j].dst != r by {
            assert(q[j].dst == p[j].dst);
        }
        assert(!writes(q, r));
    }
}

/// The position of the first move of `p`, from position `i` on, whose destination no other
/// move reads.
pub open spec fn first_ready_from(p: Seq<MoveV>, i: int) -> Option<int>
    decreases p.len() - i,
{
    if i < 0 || i >= p.len() {
        None
    } else if ready(p, i) {
        Some(i)
    } else {
        first_ready_from(p, i + 1)
    }
}

/// The moves of `p` with every read of register `d` turned into a read of register `t`.
pub open spec fn redirect(p: Seq<MoveV>, d: usize, t: usize) -> Seq<MoveV> {
    p.map_values(
        |m: MoveV|
            if m.src == ValueV::Vreg(d) {
                MoveV { dst: m.dst, src: ValueV::Vreg(t), ty: m.ty }
            } else {
                m
            },
    )
}

/// The copy that performs move `m`.
pub open spec fn copy_of(m: MoveV) -> InstrV {
    InstrV::Copy { vreg: m.dst, val: m.src, ty: m.ty }
}

/// One step of turning the pending moves `p` into copies, with fresh registers taken from
/// `next` on: the copies emitted, the moves still pending, and the counter after it. The
/// first move whose destination no other move reads is emitted. When there is none (the
/// moves form cycles), the destination of the first move is saved in register `next`, the
/// moves that read it read the saved copy instead, and the first move is emitted if no
/// other move reads its destination any more.
pub open spec fn seq_step(p: Seq<MoveV>, next: int) -> (Seq<InstrV>, Seq<MoveV>, int) {
    match first_ready_from(p, 0) {
        Some(k) => (seq![copy_of(p[k])], p.remove(k), next),
        None => {
            let d = p[0].dst;
            let q = redirect(p, d, next as usize);
            let tmp = InstrV::Copy { vreg: next as usize, val: ValueV::Vreg(d), ty: p[0].ty };
            if ready(q, 0) {
                (seq![tmp, copy_of(q[0])], q.remove(0), next + 1)
            } else {
                (seq![tmp], q, next + 1)
            }
        },
    }
}

/// One when the counter `next` could still reach the destination of the first pending
/// move.
pub open spec fn step_credit(p: Seq<MoveV>, next: int) -> int {
    if p.len() > 0 && next <= p[0].dst {
        1
    } else {
        0
    }
}

/// `first_ready_from` gives the first ready move from position `i` on, or none when there
/// is none.
pub proof fn lemma_first_ready_from(p: Seq<MoveV>, i: int)
    requires
        0 <= i <= p.len(),
    ensures
        first_ready_from(p, i) matches Some(k) ==> i <= k < p.len() && ready(p, k) && forall|j: int|
            i <= j < k ==> !ready(p, j),
        first_ready_from(p, i) is None ==> forall|j: int| i <= j < p.len() ==> !ready(p, j),
    decreases p.len() - i,
{
    if i < p.len() && !ready(p, i) {
        lemma_first_ready_from(p, i + 1);
    }
}

/// Each step emits a move or uses up the credit of the first move, so the steps end.
pub proof fn lemma_step_decreases(p: Seq<MoveV>, next: int)
    requires
        p.len() > 0,
        0 <= next <= usize::MAX,
    ensures
        seq_step(p, next).1.len() < p.len() || (seq_step(p, next).1.len() == p.len() && step_credit(
            seq_step(p, next).1,
            seq_step(p, next).2,
        ) < step_credit(p, next)),
{
    lemma_first_ready_from(p, 0);
    if first_ready_from(p, 0) is None {
        let d = p[0].dst;
        let t = next as usize;
        let q = redirect(p, d, t);
        if !ready(q, 0) {
            if t != d {
                assert forall|jj: int| 0 <= jj < q.len() && jj != 0 implies q[jj].src != ValueV::Vreg(q[0].dst) by {}
                assert(ready(q, 0));
            }
            assert(next == d);
        }
    }
}

/// The copies that the pending moves `p` turn into, with fresh registers taken from `next`
/// on, and the counter at the end; a counter past the largest register ends the steps.
pub open spec fn seq_run(p: Seq<MoveV>, next: int) -> (Seq<InstrV>, int)
    decreases p.len(), step_credit(p, next),
{
    if p.len() == 0 || next < 0 || next > usize::MAX {
        (Seq::empty(), next)
    } else {
        proof {
            lemma_step_decreases(p, next);
        }
        let st = seq_step(p, next);
        let rest = seq_run(st.1, st.2);
        (st.0 + rest.0, rest.1)
    }
}

fn reads_reg(v: &Value, r: usize) -> (b: bool)
    ensures
        b == (v@ == ValueV::Vreg(r)),
{
    match v {
        Value::Vreg(s) => *s == r,
        _ => false,
    }
}

/// The first move that no other move reads the destination of, if any.
fn find_ready(p: &Vec<Move>) -> (res: Option<usize>)
    ensures
        match res {
            Some(i) => i < p.len() && ready(view_moves(p@), i as int) && forall|k: int|
                0 <= k < i ==> !ready(view_moves(p@), k),
            None => forall|i: int| 0 <= i < p.len() ==> !ready(view_moves(p@), i),
        },
{
    let ghost pv = view_moves(p@);
    let mut i: usize = 0;
    while i < p.len()
        invariant
            i <= p.len(),
            pv == view_moves(p@),
            forall|k: int| 0 <= k < i ==> !ready(pv, k),
        decreases p.len() - i,
    {
        let d = p[i].dst;
        let mut blocked = false;
        let mut j: usize = 0;
        while j < p.len()
            invariant
                j <= p.len(),
                i < p.len(),
                d == pv[i as int].dst,
                pv == view_moves(p@),
                !blocked ==> forall|k: int| 0 <= k < j && k != i ==> pv[k].src != ValueV::Vreg(d),
                blocked ==> !ready(pv, i as int),
            decreases p.len() - j,
        {
            if j != i && reads_reg(&p[j].src, d) {
                proof {
                    assert(pv[j as int] == p@[j as int]@);
                    assert(pv[j as int].src == ValueV::Vreg(pv[i as int].dst));
                }
                blocked = true;
            }
            j = j + 1;
        }
        if !blocked {
            return Some(i);
        }
        i = i + 1;
    }
    None
}

/// One when a fresh register could still coincide with the destination of the first
/// pending move, zero otherwise.
pub open spec fn temp_credit(p: Seq<MoveV>, next: usize) -> int {
    if p.len() > 0 && next <= p[0].dst {
        1
    } else {
        0
    }
}

/// Whether no other move reads the destination of move `i`.
fn is_ready(p: &Vec<Move>, i: usize) -> (b: bool)
    requires
        i < p.len(),
    ensures
        b == ready(view_moves(p@), i as int),
{
    let ghost pv = view_moves(p@);
    let d = p[i].dst;
    let mut j: usize = 0;
    while j < p.len()
        invariant
            j <= p.len(),
            i < p.len(),
            d == pv[i as int].dst,
            pv == view_moves(p@),
            forall|k: int| 0 <= k < j && k != i ==> pv[k].src != ValueV::Vreg(d),
        decreases p.len() - j,
    {
        if j != i && reads_reg(&p[j].src, d) {
            proof {
                assert(pv[j as int] == p@[j as int]@);
            }
            return false;
        }
        j = j + 1;
    }
    true
}

/// Removes move `k` and emits it as a copy.
fn emit_move(pending: &mut Vec<Move>, instructions: &mut Vec<Instruction>, k: usize)
    requires
        k < old(pending).len(),
    ensures
        view_moves(final(pending)@) == view_moves(old(pending)@).remove(k as int),
        view_instrs(final(instructions)@) == view_instrs(old(instructions)@).push(
            InstrV::Copy {
                vreg: old(pending)@[k as int].dst,
                val: old(pending)@[k as int].src@,
                ty: old(pending)@[k as int].ty,
            },
        ),
        final(instructions)@.len() == old(instructions)@.len() + 1,
        forall|i: int| 0 <= i < old(instructions)@.len() ==> final(instructions)@[i] == old(instructions)@[i],
        final(instructions)@.last()@ is Copy,
{
    let m = pending.remove(k);
    let c = Instruction::Copy { vreg: m.dst, val: m.src, ty: m.ty };
    instructions.push(c);
    assert(view_moves(pending@) =~= view_moves(old(pending)@).remove(k as int));
    assert(view_instrs(instructions@) =~= view_instrs(old(instructions)@).push(
        InstrV::Copy { vreg: old(pending)@[k as int].dst, val: old(pending)@[k as int].src@, ty: old(pending)@[k as int].ty },
    ));
}

/// Turns parallel moves into a sequence of copies with the same effect.
///
/// Moves that copy a register into itself are dropped. While moves are pending, the first
/// move whose destination no other pending move reads is emitted; when every pending move
/// is blocked by another one (a cycle), the destination of the first pending move is saved
/// in a fresh register `*next_vreg`, its readers are redirected there, and the counter
/// advances ([`seq_step`], [`seq_run`] give the copies and the counter exactly).
///
/// There is one copy for each move that is not a self-move and one for each fresh
/// register taken (so none when every move is a self-move); each copy writes the
/// destination of a move or a fresh register. When no move writes a register twice and all
/// the registers involved are below the initial `*next_vreg`, at most one fresh register is
/// taken per move kept (so there are at most twice as many copies as moves), and, whatever
/// the values of the registers were, running the copies in order leaves every register
/// below the initial `*next_vreg` with the value the moves give it when they all happen at
/// once.
#[verifier::rlimit(60)]
pub fn sequentialize_parallel_moves(moves: Vec<Move>, next_vreg: &mut usize) -> (res: Vec<Instruction>)
    requires
        *old(next_vreg) + 2 * moves@.len() + 1 <= usize::MAX,
    ensures
        *old(next_vreg) <= *final(next_vreg) <= *old(next_vreg) + 2 * moves@.len() + 1,
        forall|i: int| 0 <= i < res@.len() ==> (#[trigger] res@[i])@ is Copy,
        view_instrs(res@) == seq_run(non_self(view_moves(moves@)), *old(next_vreg) as int).0,
        *final(next_vreg) == seq_run(non_self(view_moves(moves@)), *old(next_vreg) as int).1,
        res@.len() == non_self(view_moves(moves@)).len() + (*final(next_vreg) - *old(next_vreg)),
        non_self(view_moves(moves@)).len() == 0 ==> res@.len() == 0 && *final(next_vreg) == *old(next_vreg),
        distinct_dsts(view_moves(moves@)) && regs_below(view_moves(moves@), *old(next_vreg)) ==> *final(next_vreg)
            - *old(next_vreg) <= non_self(view_moves(moves@)).len() && res@.len() <= 2 * moves@.len(),
        forall|i: int|
            0 <= i < res@.len() ==> writes(view_moves(moves@), (#[trigger] res@[i])@->Copy_vreg) || (*old(next_vreg)
                <= res@[i]@->Copy_vreg < *final(next_vreg)),
        distinct_dsts(view_moves(moves@)) && regs_below(view_moves(moves@), *old(next_vreg)) ==> forall|
            st: spec_fn(usize) -> ValueV,
            r: usize,
        |
            r < *old(next_vreg) ==> #[trigger] run_copies(view_instrs(res@), st)(r) == moved_value(
                view_moves(moves@),
                st,
                r,
            ),
{
    let ghost m0 = view_moves(moves@);
    let ghost n0 = *next_vreg;
    let ghost ok = distinct_dsts(m0) && regs_below(m0, n0);
    let mut pending: Vec<Move> = Vec::new();
    let ghost mut origin: Seq<int> = Seq::empty();
    let mut moves = moves;
    let mut idx: usize = 0;
    let ghost moves0 = moves@;
    // drop the moves that copy a register into itself
    while idx < moves.len()
        invariant
            idx <= moves.len(),
            moves@ == moves0,
            m0 == view_moves(moves0),
            pending.len() == origin.len(),
            pending.len() <= idx,
            forall|j: int| 0 <= j < origin.len() ==> 0 <= #[trigger] origin[j] < idx,
            forall|a: int, b: int| 0 <= a < b < origin.len() ==> origin[a] < origin[b],
            forall|j: int|
                0 <= j < origin.len() ==> (#[trigger] pending@[j])@ == m0[origin[j]] && !is_self_move(
                    m0[origin[j]],
                ),
            forall|k: int|
                0 <= k < idx && !is_self_move(m0[k]) ==> exists|j: int|
                    0 <= j < origin.len() && origin[j] == k,
            view_moves(pending@) == non_self(m0.take(idx as int)),
        decreases moves.len() - idx,
    {
        proof {
            reveal_with_fuel(Seq::filter, 1);
            assert(m0.take(idx + 1).drop_last() =~= m0.take(idx as int));
        }
        let keep = !reads_reg(&moves[idx].src, moves[idx].dst);
        let ghost old_origin = origin;
        proof {
            assert(m0[idx as int] == moves@[idx as int]@);
        }
        if keep {
            let m = Move { dst: moves[idx].dst, src: moves[idx].src.duplicate(), ty: moves[idx].ty };
            let ghost old_pending = pending@;
            pending.push(m);
            proof {
                assert(view_moves(pending@) =~= view_moves(old_pending).push(m@));
                origin = origin.push(idx as int);
                assert forall|j: int| 0 <= j < origin.len() implies (#[trigger] pending@[j])@ == m0[origin[j]]
                    && !is_self_move(m0[origin[j]]) by {
                    if j < old_pending.len() {
                        assert(pending@[j] == old_pending[j]);
                    }
                }
            }
        }
        proof {
            assert forall|k: int|
                0 <= k < idx + 1 && !is_self_move(m0[k]) implies exists|j: int|
                    0 <= j < origin.len() && origin[j] == k by {
                if k == idx {
                    assert(origin[origin.len() - 1] == k);
                } else {
                    let j = choose|j: int| 0 <= j < old_origin.len() && old_origin[j] == k;
                    assert(origin[j] == k);
                }
            }
        }
        idx = idx + 1;
    }
    let ghost mut pv = view_moves(pending@);
    proof {
      if ok {
        assert(distinct_dsts(pv)) by {
            assert forall|a: int, b: int| 0 <= a < pv.len() && 0 <= b < pv.len() && a != b implies pv[a].dst
                != pv[b].dst by {
                assert(pending@[a]@ == pv[a]);
                assert(pending@[b]@ == pv[b]);
                assert(origin[a] != origin[b]);
            }
        }
        assert forall|st: spec_fn(usize) -> ValueV, r: usize| moved_value(pv, st, r) == moved_value(m0, st, r) by {
            if writes(m0, r) {
                let k = choose|k: int| 0 <= k < m0.len() && m0[k].dst == r;
                lemma_moved_value_at(m0, st, k);
                if is_self_move(m0[k]) {
                    if writes(pv, r) {
                        let j = choose|j: int| 0 <= j < pv.len() && pv[j].dst == r;
                        assert(pending@[j]@ == pv[j]);
                        assert(m0[origin[j]].dst == r);
                        assert(origin[j] == k);
                    }
                } else {
                    let j = choose|j: int| 0 <= j < origin.len() && origin[j] == k;
                    assert(pending@[j]@ == pv[j]);
                    lemma_moved_value_at(pv, st, j);
                }
            } else {
                assert forall|j: int| 0 <= j < pv.len() implies pv[j].dst != r by {
                    assert(pending@[j]@ == pv[j]);
                }
            }
        }
        assert(regs_below(pv, n0)) by {
            assert forall|j: int| 0 <= j < pv.len() implies (#[trigger] pv[j]).dst < n0 && (pv[j].src matches ValueV::Vreg(s)
                ==> s < n0) by {
                assert(pending@[j]@ == pv[j]);
                assert(m0[origin[j]] == pv[j]);
            }
        }
      }
      assert(pv.len() <= m0.len());
      assert(m0.take(m0.len() as int) =~= m0);
      assert forall|i: int| 0 <= i < pv.len() implies writes(m0, #[trigger] pv[i].dst) by {
          assert(pending@[i]@ == pv[i]);
          assert(m0[origin[i]].dst == pv[i].dst);
      }
    }
    let mut instructions: Vec<Instruction> = Vec::new();
    let ghost l0 = pv.len();
    let ghost run0 = seq_run(pv, n0 as int);
    proof {
        assert(m0.take(m0.len() as int) =~= m0);
        assert(view_instrs(instructions@) + run0.0 =~= run0.0);
    }
    while pending.len() > 0
        invariant
            pv == view_moves(pending@),
            ok ==> distinct_dsts(pv),
            ok ==> forall|i: int| 0 <= i < pv.len() ==> !is_self_move(#[trigger] pv[i]),
            ok ==> forall|i: int| 0 <= i < pv.len() ==> (#[trigger] pv[i]).dst < n0,
            ok ==> regs_below(pv, *next_vreg),
            n0 <= *next_vreg,
            l0 <= m0.len(),
            n0 + 2 * m0.len() + 1 <= usize::MAX,
            (*next_vreg - n0) + 2 * pv.len() + temp_credit(pv, *next_vreg) <= 2 * l0 + 1,
            forall|i: int| 0 <= i < instructions@.len() ==> (#[trigger] instructions@[i])@ is Copy,
            l0 == non_self(m0).len(),
            run0 == seq_run(non_self(m0), n0 as int),
            run0.0 == view_instrs(instructions@) + seq_run(pv, *next_vreg as int).0,
            run0.1 == seq_run(pv, *next_vreg as int).1,
            ok ==> (*next_vreg - n0) + pv.len() <= l0,
            instructions@.len() + pv.len() == l0 + (*next_vreg - n0),
            l0 == 0 ==> instructions@.len() == 0 && *next_vreg == n0,
            forall|i: int| 0 <= i < pv.len() ==> writes(m0, #[trigger] pv[i].dst),
            forall|i: int|
                0 <= i < instructions@.len() ==> writes(m0, (#[trigger] instructions@[i])@->Copy_vreg) || (n0
                    <= instructions@[i]@->Copy_vreg < *next_vreg),
            ok ==> forall|st: spec_fn(usize) -> ValueV, r: usize|
                r < n0 ==> #[trigger] moved_value(m0, st, r) == moved_value(
                    pv,
                    run_copies(view_instrs(instructions@), st),
                    r,
                ),
        decreases pending.len(), temp_credit(pv, *next_vreg),
    {
        match find_ready(&pending) {
            Some(k) => {
                let ghost e_before = view_instrs(instructions@);
                let ghost i_before = instructions@;
                let ghost p_before = pv;
                let ghost nb = *next_vreg as int;
                emit_move(&mut pending, &mut instructions, k);
                proof {
                    pv = view_moves(pending@);
                    lemma_first_ready_from(p_before, 0);
                    match first_ready_from(p_before, 0) {
                        Some(k2) => {
                            if k2 < k {
                                assert(!ready(p_before, k2));
                            } else if k2 > k {
                                assert(!ready(p_before, k as int));
                            }
                        },
                        None => {
                            assert(!ready(p_before, k as int));
                        },
                    }
                    let c = seq![copy_of(p_before[k as int])];
                    assert(pv =~= p_before.remove(k as int));
                    assert(seq_step(p_before, nb) == (c, pv, nb));
                    let rs = seq_run(pv, nb);
                    assert(seq_run(p_before, nb) == (c + rs.0, rs.1));
                    assert(view_instrs(instructions@) =~= e_before + c);
                    assert(run0.0 =~= view_instrs(instructions@) + rs.0);
                    assert(writes(m0, p_before[k as int].dst));
                    assert forall|i: int| 0 <= i < pv.len() implies writes(m0, #[trigger] pv[i].dst) by {
                        if i < k { assert(pv[i] == p_before[i]); } else { assert(pv[i] == p_before[i + 1]); }
                    }
                    assert forall|i: int| 0 <= i < instructions@.len() implies writes(m0, (#[trigger] instructions@[i])@->Copy_vreg)
                        || (n0 <= instructions@[i]@->Copy_vreg < *next_vreg) by {
                        if i < i_before.len() {
                            assert(instructions@[i] == i_before[i]);
                        } else {
                            assert(view_instrs(instructions@)[i] == instructions@[i]@);
                        }
                    }
                    if ok {
                        let cv = InstrV::Copy { vreg: p_before[k as int].dst, val: p_before[k as int].src, ty: p_before[k as int].ty };
                        assert forall|st: spec_fn(usize) -> ValueV, r: usize|
                            r < n0 implies #[trigger] moved_value(m0, st, r) == moved_value(
                                pv,
                                run_copies(view_instrs(instructions@), st),
                                r,
                            ) by {
                            lemma_run_push(e_before, cv, st);
                            lemma_step_ready(p_before, k as int, run_copies(e_before, st), r);
                        }
                        assert forall|i: int| 0 <= i < pv.len() implies !is_self_move(#[trigger] pv[i]) by {
                            if i < k { assert(pv[i] == p_before[i]); } else { assert(pv[i] == p_before[i + 1]); }
                        }
                        assert forall|i: int| 0 <= i < pv.len() implies (#[trigger] pv[i]).dst < n0 by {
                            if i < k { assert(pv[i] == p_before[i]); } else { assert(pv[i] == p_before[i + 1]); }
                        }
                        assert(regs_below(pv, *next_vreg)) by {
                            assert forall|i: int| 0 <= i < pv.len() implies (#[trigger] pv[i]).dst < *next_vreg && (pv[i].src matches ValueV::Vreg(s) ==> s < *next_vreg) by {
                                if i < k { assert(pv[i] == p_before[i]); } else { assert(pv[i] == p_before[i + 1]); }
                            }
                        }
                    }
                }
            },
            None => {
                // every pending move is blocked: save the first destination in a fresh register
                let t = *next_vreg;
                let d0 = pending[0].dst;
                let ty0 = pending[0].ty;
                let ghost e_before = view_instrs(instructions@);
                let ghost i_before = instructions@;
                let ghost p_before = pv;
                let tmp_copy = Instruction::Copy { vreg: t, val: Value::Vreg(d0), ty: ty0 };
                instructions.push(tmp_copy);
                *next_vreg = t + 1;
                proof {
                    assert forall|i: int| 0 <= i < instructions@.len() implies writes(m0, (#[trigger] instructions@[i])@->Copy_vreg)
                        || (n0 <= instructions@[i]@->Copy_vreg < *next_vreg) by {
                        if i < i_before.len() {
                            assert(instructions@[i] == i_before[i]);
                        }
                    }
                }
                let mut j: usize = 0;
                while j < pending.len()
                    invariant
                        j <= pending.len(),
                        pending.len() == p_before.len(),
                        p_before.len() > 0,
                        d0 == p_before[0].dst,
                        forall|i: int|
                            0 <= i < p_before.len() ==> (#[trigger] pending@[i])@.dst == p_before[i].dst
                                && pending@[i]@.ty == p_before[i].ty && pending@[i]@.src == (if i < j
                                && p_before[i].src == ValueV::Vreg(d0) {
                                ValueV::Vreg(t)
                            } else {
                                p_before[i].src
                            }),
                    decreases pending.len() - j,
                {
                    if reads_reg(&pending[j].src, d0) {
                        let old_m = pending.remove(j);
                        let nm = Move { dst: old_m.dst, src: Value::Vreg(t), ty: old_m.ty };
                        pending.insert(j, nm);
                    }
                    j = j + 1;
                }
                let ghost e_mid = view_instrs(instructions@);
                proof {
                    let q = view_moves(pending@);
                    let tcopy = InstrV::Copy { vreg: t, val: ValueV::Vreg(d0), ty: ty0 };
                    assert(e_mid =~= e_before.push(tcopy));
                    assert forall|i: int| 0 <= i < q.len() implies #[trigger] q[i].dst == p_before[i].dst by {
                        assert(q[i] == pending@[i]@);
                    }
                    if t != d0 {
                        assert(ready(q, 0)) by {
                            assert forall|jj: int| 0 <= jj < q.len() && jj != 0 implies q[jj].src != ValueV::Vreg(q[0].dst) by {
                                assert(q[jj] == pending@[jj]@);
                                assert(q[0] == pending@[0]@);
                            }
                        }
                    }
                    if ok {
                        assert forall|st: spec_fn(usize) -> ValueV, r: usize|
                            r < n0 implies #[trigger] moved_value(m0, st, r) == moved_value(
                                q,
                                run_copies(e_mid, st),
                                r,
                            ) by {
                            lemma_run_push(e_before, tcopy, st);
                            assert forall|i: int| 0 <= i < p_before.len() implies (#[trigger] q[i]).dst == p_before[i].dst && q[i].ty == p_before[i].ty && q[i].src == (
                                if p_before[i].src == ValueV::Vreg(p_before[0].dst) { ValueV::Vreg(t) } else { p_before[i].src }) by {
                                assert(q[i] == pending@[i]@);
                            }
                            lemma_step_temp(p_before, q, t, run_copies(e_before, st), r);
                        }
                    }
                    pv = q;
                    assert forall|i: int| 0 <= i < pv.len() implies writes(m0, #[trigger] pv[i].dst) by {
                        assert(pv[i].dst == p_before[i].dst);
                    }
                    if ok {
                        assert(regs_below(pv, *next_vreg)) by {
                            assert forall|i: int| 0 <= i < pv.len() implies (#[trigger] pv[i]).dst < *next_vreg && (pv[i].src matches ValueV::Vreg(s) ==> s < *next_vreg) by {
                                assert(pv[i] == pending@[i]@);
                            }
                        }
                        assert(distinct_dsts(pv));
                        assert forall|i: int| 0 <= i < pv.len() implies !is_self_move(#[trigger] pv[i]) by {
                            assert(pv[i] == pending@[i]@);
                            assert(pv[i].dst == p_before[i].dst);
                            if p_before[i].src == ValueV::Vreg(d0) {
                                assert(pv[i].dst < n0);
                            }
                        }
                    }
                }
                let ghost q_red = pv;
                let ghost i_red = view_instrs(instructions@);
                if is_ready(&pending, 0) {
                    let ghost p_mid = pv;
                    let ghost i_mid = instructions@;
                    emit_move(&mut pending, &mut instructions, 0);
                    proof {
                        pv = view_moves(pending@);
                        assert(writes(m0, p_mid[0].dst));
                        assert forall|i: int| 0 <= i < pv.len() implies writes(m0, #[trigger] pv[i].dst) by {
                            assert(pv[i] == p_mid[i + 1]);
                        }
                        assert forall|i: int| 0 <= i < instructions@.len() implies writes(m0, (#[trigger] instructions@[i])@->Copy_vreg)
                            || (n0 <= instructions@[i]@->Copy_vreg < *next_vreg) by {
                            if i < i_mid.len() {
                                assert(instructions@[i] == i_mid[i]);
                            } else {
                                assert(view_instrs(instructions@)[i] == instructions@[i]@);
                            }
                        }
                        if ok {
                            let cv = InstrV::Copy { vreg: p_mid[0].dst, val: p_mid[0].src, ty: p_mid[0].ty };
                            assert forall|st: spec_fn(usize) -> ValueV, r: usize|
                                r < n0 implies #[trigger] moved_value(m0, st, r) == moved_value(
                                    pv,
                                    run_copies(view_instrs(instructions@), st),
                                    r,
                                ) by {
                                lemma_run_push(e_mid, cv, st);
                                lemma_step_ready(p_mid, 0, run_copies(e_mid, st), r);
                            }
                            assert forall|i: int| 0 <= i < pv.len() implies !is_self_move(#[trigger] pv[i]) && pv[i].dst < n0 by {
                                assert(pv[i] == p_mid[i + 1]);
                            }
                            assert(regs_below(pv, *next_vreg)) by {
                                assert forall|i: int| 0 <= i < pv.len() implies (#[trigger] pv[i]).dst < *next_vreg && (pv[i].src matches ValueV::Vreg(s) ==> s < *next_vreg) by {
                                    assert(pv[i] == p_mid[i + 1]);
                                }
                            }
                        }
                    }
                } else {
                    proof {
                        assert(t == d0);
                        assert(!ok);
                    }
                }
                proof {
                    lemma_first_ready_from(p_before, 0);
                    if first_ready_from(p_before, 0) is Some {
                        let k2 = first_ready_from(p_before, 0).unwrap();
                        assert(!ready(p_before, k2));
                    }
                    assert(q_red =~= redirect(p_before, d0, t));
                    let nb = t as int;
                    let tmp = InstrV::Copy { vreg: t, val: ValueV::Vreg(d0), ty: ty0 };
                    let c = if ready(q_red, 0) {
                        seq![tmp, copy_of(q_red[0])]
                    } else {
                        seq![tmp]
                    };
                    if ready(q_red, 0) {
                        assert(pv =~= q_red.remove(0));
                    }
                    assert(seq_step(p_before, nb) == (c, pv, nb + 1));
                    let rs = seq_run(pv, nb + 1);
                    assert(seq_run(p_before, nb) == (c + rs.0, rs.1));
                    assert(view_instrs(instructions@) =~= e_before + c);
                    assert(run0.0 =~= view_instrs(instructions@) + rs.0);
                }
            },
        }
    }
    proof {
        if ok {
            assert forall|st: spec_fn(usize) -> ValueV, r: usize|
                r < n0 implies #[trigger] run_copies(view_instrs(instructions@), st)(r) == moved_value(
                    view_moves(moves0),
                    st,
                    r,
                ) by {
                assert(moved_value(m0, st, r) == moved_value(pv, run_copies(view_instrs(instructions@), st), r));
                assert(!writes(pv, r));
            }
        }
    }
    instructions
}

} // verus!
