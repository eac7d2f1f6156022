use lib::cfg::builder::CfgError;
use lib::codegen::c_backend::CBackend;
use lib::ir::ir_parser::IrParser;
use lib::module::instruction::{Instruction, Type, Value};
use lib::module::{Module, PipelineError};

fn compile(src: &str) -> String {
    let mut p = IrParser::new(src);
    let mut m: Module = p.parse_module("test").unwrap();
    m.build_cfg().unwrap();
    m.build_ssa().unwrap();
    m.leave_ssa().unwrap();
    String::from_utf8(CBackend::new(&m).compile()).unwrap()
}

const HEADER: &str = "// Module \"test\"\n#include <stdint.h>\n";

#[test]
fn compiles_the_documented_example() {
    let c = compile("define @main() i32 {\n    ret i32 42\n}\n");
    assert_eq!(c, format!("{}\nuint32_t main() {{\n// BB_0:\n  return (uint32_t)42;\n}}\n", HEADER));
}

#[test]
fn compiles_a_loop_through_ssa_and_back() {
    let src = "define @count(%n i32) i32 {
    %i = copy i32 0
    jmp #loop
#loop
    %c = cult i32 %i, %n
    br %c, #body, #end
#body
    %i = add i32 %i, 1
    jmp #loop
#end
    ret i32 %i
}
";
    let expected = "
uint32_t count(uint32_t vreg_0) {
  uint32_t vreg_1;
  uint32_t vreg_2;
  uint8_t vreg_4;
  uint32_t vreg_5;
// BB_0:
  vreg_1 = (uint32_t)0;
  vreg_2 = (uint32_t)vreg_1;
  goto L_loop;
// BB_1:
L_loop:
  vreg_4 = (uint8_t)((uint32_t)vreg_2 < (uint32_t)vreg_0);
  if (vreg_4) goto L_body; else goto L_end;
// BB_2:
L_body:
  vreg_5 = (uint32_t)((uint32_t)vreg_2 + (uint32_t)1);
  vreg_2 = (uint32_t)vreg_5;
  goto L_loop;
// BB_3:
L_end:
  return (uint32_t)vreg_2;
}
";
    assert_eq!(compile(src), format!("{}{}", HEADER, expected));
}

#[test]
fn compiles_globals_as_byte_arrays() {
    let c = compile("data constant @msg = { ascii \"Hi\", i1 0 }\ndata @n = { i32 1 }\n");
    assert_eq!(
        c,
        format!(
            "{}static const uint8_t glob_msg[] = {{ 0x48, 0x69, 0x00 }};\nstatic uint8_t glob_n[] = {{ 0x01, 0x00, 0x00, 0x00 }};\n",
            HEADER
        )
    );
}

#[test]
fn float_literal_is_written_in_shortest_form() {
    let c = compile("define @f() f32 {\n    ret f32 1.50\n}\n");
    assert!(c.contains("return (float)1.5;"), "{}", c);
}

#[test]
fn extern_function_is_declared() {
    let c = compile("define extern @printf(ptr, ...) i32\n");
    assert_eq!(c, format!("{}\nextern uint32_t printf(void* vreg_0, ...);\n", HEADER));
}

#[test]
fn build_cfg_reports_missing_terminator() {
    let mut p = IrParser::new("define @f() i32 { %x = copy i32 1 }");
    let mut m = p.parse_module("test").unwrap();
    assert_eq!(m.build_cfg(), Err((0, CfgError::MissingTerminator { block: 0 })));
}

#[test]
fn build_cfg_reports_the_failing_function() {
    let mut p = IrParser::new("define @f() i32 {\nret i32 1\n}\ndefine @g() i32 {\nret i32 1\n#dead\n%y = copy i32 2\n}");
    let mut m = p.parse_module("test").unwrap();
    assert_eq!(m.build_cfg(), Err((1, CfgError::MissingTerminator { block: 1 })));
    // the first function got its graph, the second is unchanged
    assert_eq!(m.functions[0].cfg.blocks.len(), 1);
    assert_eq!(m.functions[1].body.len(), 3);
}

#[test]
fn ssa_of_a_function_without_blocks_is_refused() {
    let mut p = IrParser::new("define @f() i32 {\nret i32 1\n}");
    let mut m = p.parse_module("test").unwrap();
    // the graph was never built
    assert_eq!(m.build_ssa(), Err(PipelineError::EmptyBody { function: 0 }));
}

#[test]
fn ssa_places_a_phi_at_the_join() {
    let src = "define @f(%c i1) i32 {
    br %c, #a, #b
#a
    %x = copy i32 1
    jmp #j
#b
    %x = copy i32 2
    jmp #j
#j
    ret i32 %x
}
";
    let mut p = IrParser::new(src);
    let mut m = p.parse_module("test").unwrap();
    m.build_cfg().unwrap();
    m.build_ssa().unwrap();
    let g = &m.functions[0].cfg;
    let join = &g.blocks[3].instructions;
    let phi = join.iter().find(|i| i.is_phi()).expect("a phi at the join");
    let (a, b) = match (&g.blocks[1].instructions[1], &g.blocks[2].instructions[1]) {
        (Instruction::Copy { vreg: a, .. }, Instruction::Copy { vreg: b, .. }) => (*a, *b),
        other => panic!("unexpected {:?}", other),
    };
    assert_ne!(a, b);
    match phi {
        Instruction::Phi { vreg, srcs, ty } => {
            assert_eq!(*ty, Type::I32);
            assert_eq!(srcs.len(), 2);
            assert!(matches!(srcs[0], Value::Vreg(v) if v == a));
            assert!(matches!(srcs[1], Value::Vreg(v) if v == b));
            assert!(matches!(join.last().unwrap(), Instruction::Ret { val: Value::Vreg(r), .. } if *r == *vreg));
        }
        _ => unreachable!(),
    }
    // out of SSA, the phi became a copy at the end of each branch
    m.leave_ssa().unwrap();
    let g = &m.functions[0].cfg;
    assert!(g.blocks.iter().all(|b| b.instructions.iter().all(|i| !i.is_phi())));
    assert!(matches!(g.blocks[1].instructions[2], Instruction::Copy { val: Value::Vreg(v), .. } if v == a));
    assert!(matches!(g.blocks[2].instructions[2], Instruction::Copy { val: Value::Vreg(v), .. } if v == b));
}

#[test]
fn every_register_is_assigned_once_in_ssa() {
    let src = "define @f(%n i32) i32 {
    %i = copy i32 0
    %i = add i32 %i, 1
    %i = add i32 %i, %n
    ret i32 %i
}
";
    let mut p = IrParser::new(src);
    let mut m = p.parse_module("test").unwrap();
    m.build_cfg().unwrap();
    m.build_ssa().unwrap();
    let mut written = Vec::new();
    for b in &m.functions[0].cfg.blocks {
        for i in &b.instructions {
            match i {
                Instruction::Copy { vreg, .. } | Instruction::Op { vreg, .. } => written.push(*vreg),
                _ => {}
            }
        }
    }
    let mut dedup = written.clone();
    dedup.sort();
    dedup.dedup();
    assert_eq!(written.len(), 3);
    assert_eq!(dedup.len(), 3);
    assert!(!written.contains(&0));
}

#[test]
fn unreachable_block_keeps_its_registers() {
    let src = "define @f() i32 {
    %x = copy i32 1
    ret i32 %x
#dead
    %x = copy i32 2
    ret i32 %x
}
";
    let mut p = IrParser::new(src);
    let mut m = p.parse_module("test").unwrap();
    m.build_cfg().unwrap();
    m.build_ssa().unwrap();
    let g = &m.functions[0].cfg;
    // the entry block got the first fresh value; the dead block was not renamed and still
    // writes register 0 and returns it
    assert!(matches!(g.blocks[0].instructions[0], Instruction::Copy { vreg: 0, val: Value::IntLit(1), .. }));
    assert!(matches!(g.blocks[1].instructions[1], Instruction::Copy { vreg: 0, val: Value::IntLit(2), .. }));
    assert!(matches!(g.blocks[1].instructions[2], Instruction::Ret { val: Value::Vreg(0), .. }));
}

#[test]
fn signed_operations_read_signed_operands() {
    let c = compile("define @f(%a i32, %b i32) i32 {\n%q = div i32 %a, %b\n%s = cslt i32 %a, %b\n%g = csgt i32 %a, %b\n%l = cult i32 %a, %b\nret i32 %q\n}\n");
    assert!(c.contains("  vreg_2 = (uint32_t)((int32_t)vreg_0 / (int32_t)vreg_1);\n"), "{}", c);
    assert!(c.contains("  vreg_3 = (uint8_t)((int32_t)vreg_0 < (int32_t)vreg_1);\n"), "{}", c);
    assert!(c.contains("  vreg_4 = (uint8_t)((int32_t)vreg_0 > (int32_t)vreg_1);\n"), "{}", c);
    assert!(c.contains("  vreg_5 = (uint8_t)((uint32_t)vreg_0 < (uint32_t)vreg_1);\n"), "{}", c);
}

#[test]
fn comparison_result_is_declared_as_i1() {
    let c = compile("define @f(%a i32) i1 {\n%c = ceq i32 %a, 5\nret i1 %c\n}\n");
    assert!(c.contains("  uint8_t vreg_1;\n"), "{}", c);
    assert!(c.contains("  vreg_1 = (uint8_t)((uint32_t)vreg_0 == (uint32_t)5);\n"), "{}", c);
}

#[test]
fn a_loop_that_only_reads_a_parameter_gets_no_phi() {
    let src = "define @f(%c i1) i1 {
    jmp #h
#h
    br %c, #b, #x
#b
    jmp #h
#x
    ret i1 %c
}
";
    let mut p = IrParser::new(src);
    let mut m = p.parse_module("test").unwrap();
    m.build_cfg().unwrap();
    let before: Vec<usize> = m.functions[0].cfg.blocks.iter().map(|b| b.instructions.len()).collect();
    m.build_ssa().unwrap();
    let g = &m.functions[0].cfg;
    // the loop header's phi for %c would only repeat the parameter: it is removed
    assert!(g.blocks.iter().all(|b| b.instructions.iter().all(|i| !i.is_phi())));
    let after: Vec<usize> = g.blocks.iter().map(|b| b.instructions.len()).collect();
    assert_eq!(before, after);
    assert!(matches!(g.blocks[3].instructions.last().unwrap(), Instruction::Ret { val: Value::Vreg(0), .. }));
}

#[test]
fn a_read_after_an_assignment_in_the_block_reads_its_fresh_register() {
    let src = "define @f(%a i32) i32 {
    %a = add i32 %a, 1
    %b = add i32 %a, %a
    ret i32 %b
}
";
    let mut p = IrParser::new(src);
    let mut m = p.parse_module("test").unwrap();
    m.build_cfg().unwrap();
    m.build_ssa().unwrap();
    let ins = &m.functions[0].cfg.blocks[0].instructions;
    let first = match &ins[0] {
        Instruction::Op { vreg, lhs: Value::Vreg(0), .. } => *vreg,
        other => panic!("unexpected {:?}", other),
    };
    assert_ne!(first, 0);
    assert!(matches!(&ins[1], Instruction::Op { lhs: Value::Vreg(l), rhs: Value::Vreg(r), .. } if *l == first && *r == first));
}

#[test]
fn a_phi_can_stay_trivial_after_later_removals() {
    // the phi for %c at #b5 is checked while its source from #b2 is still a phi of its
    // own; that phi is removed later, and the phi at #b5 is not looked at again
    let src = "define @f(%c i1) i32 {
%x = copy i32 0
jmp #b5
#b1
br %c, #b1, #b3
#b2
%x = copy i32 2
br %c, #b5, #b1
#b3
br %c, #b4, #b2
#b4
%x = copy i32 4
jmp #b1
#b5
%x = copy i32 5
jmp #b4
}
";
    let mut p = IrParser::new(src);
    let mut m = p.parse_module("test").unwrap();
    m.build_cfg().unwrap();
    m.build_ssa().unwrap();
    let g = &m.functions[0].cfg;
    match &g.blocks[5].instructions[0] {
        Instruction::Phi { vreg, srcs, .. } => {
            assert_eq!(srcs.len(), 2);
            assert!(matches!(srcs[0], Value::Vreg(0)));
            assert!(matches!(srcs[1], Value::Vreg(v) if v == *vreg));
        }
        other => panic!("unexpected {:?}", other),
    }
}

#[test]
fn unsigned_division_compiles_to_an_unsigned_quotient() {
    let c = compile("define @f(%a i32) i32 {\n%q = udiv i32 %a, 2\nret i32 %q\n}\n");
    assert!(c.contains("  vreg_1 = (uint32_t)((uint32_t)vreg_0 / (uint32_t)2);\n"), "{}", c);
}
