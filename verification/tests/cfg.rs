use lib::cfg::builder::{cfg_from_body, CfgBuilder, CfgError};
use lib::cfg::parallel_moves::{sequentialize_parallel_moves, Move};
use lib::cfg::{BlockId, ControlFlowGraph};
use lib::ir::ir_parser::IrParser;
use lib::module::function::Function;
use lib::module::instruction::{Instruction, Type, Value};

fn label(s: &str) -> Vec<u8> {
    s.as_bytes().to_vec()
}

fn body_of(src: &str) -> Vec<Instruction> {
    let mut p = IrParser::new(src);
    let mut m = p.parse_module("test").unwrap();
    m.functions.remove(0).body
}

/// Block 0 branches to #a and #b, block 1 (#a) jumps to #b, block 2 (#b) returns.
fn diamond_with_critical_edge() -> ControlFlowGraph {
    let mut g = ControlFlowGraph::new();
    let b0 = g.create_block();
    let b1 = g.create_block();
    let b2 = g.create_block();
    g.add_ins(b0, Instruction::Br { cond: Value::Vreg(0), true_br: label("a"), false_br: label("b") });
    g.add_ins(b1, Instruction::Label(label("a")));
    g.add_ins(b1, Instruction::Jmp(label("b")));
    g.add_ins(b2, Instruction::Label(label("b")));
    g.add_ins(b2, Instruction::Ret { val: Value::IntLit(0), ty: Type::I32 });
    g.add_edge(b0, b1);
    g.add_edge(b0, b2);
    g.add_edge(b1, b2);
    g
}

#[test]
fn graph_operations_keep_edges_mirrored() {
    let g = diamond_with_critical_edge();
    assert_eq!(g.blocks.len(), 3);
    assert_eq!(g.successors(BlockId(0)), &[BlockId(1), BlockId(2)]);
    assert_eq!(g.predecessors(BlockId(2)), &[BlockId(0), BlockId(1)]);
    assert_eq!(g.get_block(BlockId(1)).instructions.len(), 2);
    assert!(g.is_well_formed());
}

#[test]
fn reverse_post_order_starts_at_entry() {
    let g = diamond_with_critical_edge();
    assert_eq!(g.compute_rpo(), vec![BlockId(0), BlockId(1), BlockId(2)]);
}

#[test]
fn splits_the_critical_edge() {
    let mut g = diamond_with_critical_edge();
    assert!(g.critical_targets_labeled());
    g.split_critical_edges();
    assert_eq!(g.blocks.len(), 4);
    assert_eq!(g.successors(BlockId(0)), &[BlockId(1), BlockId(3)]);
    assert_eq!(g.predecessors(BlockId(2)), &[BlockId(3), BlockId(1)]);
    assert_eq!(g.successors(BlockId(3)), &[BlockId(2)]);
    assert_eq!(g.predecessors(BlockId(3)), &[BlockId(0)]);
    assert_eq!(g.get_block_label(3), Some(label("critical_blk_3")));
    match &g.blocks[0].instructions[0] {
        Instruction::Br { true_br, false_br, .. } => {
            assert_eq!(true_br, &label("a"));
            assert_eq!(false_br, &label("critical_blk_3"));
        }
        other => panic!("unexpected {:?}", other),
    }
    assert!(matches!(&g.blocks[3].instructions[1], Instruction::Jmp(l) if l == &label("b")));
    // block 1 still jumps straight to #b: its edge was not critical
    assert!(matches!(&g.blocks[1].instructions[1], Instruction::Jmp(l) if l == &label("b")));
}

#[test]
fn graph_without_critical_edges_is_unchanged() {
    let mut g = ControlFlowGraph::new();
    let b0 = g.create_block();
    let b1 = g.create_block();
    g.add_ins(b0, Instruction::Jmp(label("x")));
    g.add_ins(b1, Instruction::Label(label("x")));
    g.add_ins(b1, Instruction::Ret { val: Value::Void, ty: Type::Void });
    g.add_edge(b0, b1);
    g.split_critical_edges();
    assert_eq!(g.blocks.len(), 2);
    assert_eq!(g.successors(BlockId(0)), &[BlockId(1)]);
}

#[test]
fn unlabeled_target_of_critical_edge_is_detected() {
    let mut g = ControlFlowGraph::new();
    let b0 = g.create_block();
    let b1 = g.create_block();
    let b2 = g.create_block();
    g.add_ins(b2, Instruction::Ret { val: Value::Void, ty: Type::Void });
    g.add_edge(b0, b1);
    g.add_edge(b0, b2);
    g.add_edge(b1, b2);
    assert!(!g.critical_targets_labeled());
    assert_eq!(g.get_block_label(2), None);
}

#[test]
fn splits_body_into_blocks_with_edges() {
    let body = body_of("define @f(%n i32) i32 {\n%c = cslt i32 %n, 0\nbr %c, #neg, #pos\n#neg\nret i32 0\n#pos\nret i32 1\n}");
    let g = cfg_from_body(&body).unwrap();
    assert_eq!(g.blocks.len(), 3);
    assert_eq!(g.blocks[0].instructions.len(), 2);
    assert_eq!(g.blocks[1].instructions.len(), 2);
    assert_eq!(g.successors(BlockId(0)), &[BlockId(1), BlockId(2)]);
    assert!(g.successors(BlockId(1)).is_empty());
    assert_eq!(g.predecessors(BlockId(2)), &[BlockId(0)]);
}

#[test]
fn block_without_terminator_is_an_error() {
    let body = body_of("define @f() i32 {\n%x = copy i32 1\n}");
    assert_eq!(cfg_from_body(&body).unwrap_err(), CfgError::MissingTerminator { block: 0 });
}

#[test]
fn builder_fills_the_graph_of_a_function() {
    let mut p = IrParser::new("define @f() i32 {\njmp #e\n#e\nret i32 3\n}");
    let mut m = p.parse_module("test").unwrap();
    let f: Function = m.functions.remove(0);
    let mut b = CfgBuilder::new(f);
    assert_eq!(b.build_cfg(), Ok(()));
    let f = b.into_function();
    assert_eq!(f.cfg.blocks.len(), 2);
    assert_eq!(f.cfg.successors(BlockId(0)), &[BlockId(1)]);
}

#[test]
fn swap_is_sequentialized_through_a_fresh_register() {
    let moves = vec![
        Move { dst: 1, src: Value::Vreg(2), ty: Type::I32 },
        Move { dst: 2, src: Value::Vreg(1), ty: Type::I32 },
    ];
    let mut next = 10usize;
    let out = sequentialize_parallel_moves(moves, &mut next);
    assert_eq!(next, 11);
    assert_eq!(out.len(), 3);
    assert!(matches!(out[0], Instruction::Copy { vreg: 10, val: Value::Vreg(1), ty: Type::I32 }));
    assert!(matches!(out[1], Instruction::Copy { vreg: 1, val: Value::Vreg(2), ty: Type::I32 }));
    assert!(matches!(out[2], Instruction::Copy { vreg: 2, val: Value::Vreg(10), ty: Type::I32 }));
}

#[test]
fn moves_are_ordered_so_no_source_is_overwritten() {
    let moves = vec![
        Move { dst: 1, src: Value::Vreg(2), ty: Type::I32 },
        Move { dst: 3, src: Value::Vreg(1), ty: Type::I32 },
        Move { dst: 4, src: Value::IntLit(7), ty: Type::I32 },
    ];
    let mut next = 5usize;
    let out = sequentialize_parallel_moves(moves, &mut next);
    assert_eq!(next, 5);
    assert_eq!(out.len(), 3);
    // the move that reads register 1 runs before the move that writes it
    let pos_read = out.iter().position(|i| matches!(i, Instruction::Copy { vreg: 3, val: Value::Vreg(1), .. }));
    let pos_write = out.iter().position(|i| matches!(i, Instruction::Copy { vreg: 1, val: Value::Vreg(2), .. }));
    assert!(pos_read.unwrap() < pos_write.unwrap());
    assert!(out.iter().any(|i| matches!(i, Instruction::Copy { vreg: 4, val: Value::IntLit(7), .. })));
}

#[test]
fn self_moves_are_dropped() {
    let moves = vec![Move { dst: 3, src: Value::Vreg(3), ty: Type::I32 }];
    let mut next = 4usize;
    let out = sequentialize_parallel_moves(moves, &mut next);
    assert!(out.is_empty());
    assert_eq!(next, 4);
}

#[test]
fn max_register_of_a_graph() {
    let mut g = ControlFlowGraph::new();
    let b0 = g.create_block();
    g.add_ins(b0, Instruction::Copy { vreg: 7, val: Value::Vreg(3), ty: Type::I32 });
    g.add_ins(b0, Instruction::Ret { val: Value::Vreg(7), ty: Type::I32 });
    assert_eq!(g.get_max_vreg(), 7);
    assert_eq!(ControlFlowGraph::new().get_max_vreg(), 0);
}

#[test]
fn phis_are_lowered_to_copies_in_predecessors() {
    // 0 -> 2, 1 -> 2 ; block 2 starts with a phi of two sources
    let mut g = ControlFlowGraph::new();
    let b0 = g.create_block();
    let b1 = g.create_block();
    let b2 = g.create_block();
    g.add_ins(b0, Instruction::Jmp(label("m")));
    g.add_ins(b1, Instruction::Jmp(label("m")));
    g.add_ins(b2, Instruction::Label(label("m")));
    g.add_ins(b2, Instruction::Phi { vreg: 5, srcs: vec![Value::IntLit(1), Value::Vreg(4)], ty: Type::I32 });
    g.add_ins(b2, Instruction::Ret { val: Value::Vreg(5), ty: Type::I32 });
    g.add_edge(b0, b2);
    g.add_edge(b1, b2);
    assert!(g.phis_have_sources_check());
    let mut next = g.get_max_vreg() + 1;
    assert!(g.phi_budget_fits(next));
    g.lower_phis_to_moves(&mut next);
    assert_eq!(g.blocks[0].instructions.len(), 2);
    assert!(matches!(g.blocks[0].instructions[0], Instruction::Copy { vreg: 5, val: Value::IntLit(1), ty: Type::I32 }));
    assert!(matches!(&g.blocks[0].instructions[1], Instruction::Jmp(_)));
    assert!(matches!(g.blocks[1].instructions[0], Instruction::Copy { vreg: 5, val: Value::Vreg(4), ty: Type::I32 }));
    assert_eq!(g.blocks[2].instructions.len(), 2);
    assert!(g.blocks[2].instructions.iter().all(|i| !i.is_phi()));
}

#[test]
fn reverse_post_order_lists_only_reachable_blocks() {
    // 0 -> 2, 1 -> 2 : block 1 cannot be reached from the entry
    let mut g = ControlFlowGraph::new();
    let b0 = g.create_block();
    let b1 = g.create_block();
    let b2 = g.create_block();
    g.add_edge(b0, b2);
    g.add_edge(b1, b2);
    assert_eq!(g.compute_rpo(), vec![BlockId(0), BlockId(2)]);
}

#[test]
fn reverse_post_order_puts_a_block_after_its_predecessors_on_a_loop() {
    // 0 -> 1 -> 2 -> 1, 2 -> 3
    let mut g = ControlFlowGraph::new();
    let b: Vec<BlockId> = (0..4).map(|_| g.create_block()).collect();
    g.add_edge(b[0], b[1]);
    g.add_edge(b[1], b[2]);
    g.add_edge(b[2], b[1]);
    g.add_edge(b[2], b[3]);
    assert_eq!(g.compute_rpo(), vec![BlockId(0), BlockId(1), BlockId(2), BlockId(3)]);
}

#[test]
fn copies_count_the_moves_kept_and_the_temporaries() {
    let moves = vec![
        Move { dst: 3, src: Value::Vreg(3), ty: Type::I32 },
        Move { dst: 1, src: Value::Vreg(2), ty: Type::I32 },
        Move { dst: 2, src: Value::Vreg(1), ty: Type::I32 },
    ];
    let mut next = 10usize;
    let out = sequentialize_parallel_moves(moves, &mut next);
    // two moves kept and one temporary, taken from the counter
    assert_eq!(next, 11);
    assert_eq!(out.len(), 3);
    assert!(out.iter().all(|i| matches!(i, Instruction::Copy { vreg, .. } if *vreg == 1 || *vreg == 2 || *vreg == 10)));
}
