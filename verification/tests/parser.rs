use lib::ir::ir_lexer::TokenKind;
use lib::ir::ir_parser::{IrParser, ParseError};
use lib::module::instruction::{Instruction, OpKind, Type, Value};
use lib::module::Module;

fn parse(src: &str) -> Result<Module, ParseError> {
    let mut p = IrParser::new(src);
    p.parse_module("test")
}

#[test]
fn parses_a_function_returning_a_constant() {
    let m = parse("define @main() i32 {\n    ret i32 42\n}\n").unwrap();
    assert_eq!(m.name, b"test".to_vec());
    assert!(m.globals.is_empty());
    assert_eq!(m.functions.len(), 1);
    let f = &m.functions[0];
    assert_eq!(f.name, b"main".to_vec());
    assert!(f.params.is_empty());
    assert_eq!(f.ty, Type::I32);
    assert!(!f.is_extern);
    assert_eq!(f.body.len(), 1);
    assert!(matches!(f.body[0], Instruction::Ret { val: Value::IntLit(42), ty: Type::I32 }));
}

#[test]
fn parses_an_extern_variadic_function() {
    let m = parse("define extern @printf(ptr, ...) i32\n").unwrap();
    let f = &m.functions[0];
    assert!(f.is_extern);
    assert_eq!(f.name, b"printf".to_vec());
    assert_eq!(f.params.len(), 2);
    assert_eq!(f.params[0].ty, Type::Ptr);
    assert!(!f.params[0].is_vaarg);
    assert!(f.params[1].is_vaarg);
    assert!(f.body.is_empty());
}

#[test]
fn numbers_registers_in_order_of_declaration() {
    let m = parse("define @f(%a i32) i32 {\n%b = add i32 %a, 1\n%a = copy i32 %b\nret i32 %b\n}").unwrap();
    let f = &m.functions[0];
    assert_eq!(f.params[0].vreg, 0);
    assert_eq!(f.params[0].ty, Type::I32);
    assert!(matches!(
        f.body[0],
        Instruction::Op { vreg: 1, kind: OpKind::Add, lhs: Value::Vreg(0), rhs: Value::IntLit(1), ty: Type::I32 }
    ));
    assert!(matches!(f.body[1], Instruction::Copy { vreg: 0, val: Value::Vreg(1), ty: Type::I32 }));
    assert!(matches!(f.body[2], Instruction::Ret { val: Value::Vreg(1), ty: Type::I32 }));
}

#[test]
fn negative_literal_wraps_to_twos_complement() {
    let m = parse("define @f() i32 {\nret i32 -1\n}").unwrap();
    match &m.functions[0].body[0] {
        Instruction::Ret { val: Value::IntLit(n), .. } => assert_eq!(*n, usize::MAX),
        other => panic!("unexpected {:?}", other),
    }
}

#[test]
fn float_literal_keeps_its_text() {
    let m = parse("define @f() f32 {\n%x = copy f32 1.50\nret f32 %x\n}").unwrap();
    match &m.functions[0].body[0] {
        Instruction::Copy { vreg: 0, val: Value::FloatLit(t), ty: Type::F32 } => assert_eq!(t, &b"1.50".to_vec()),
        other => panic!("unexpected {:?}", other),
    }
}

#[test]
fn parses_branches_labels_and_comparisons() {
    let src = "define @f(%n i32) i32 {\n%c = cslt i32 %n, 0\nbr %c, #neg, #pos\n#neg\nret i32 0\n#pos\njmp #neg\n}";
    let m = parse(src).unwrap();
    let body = &m.functions[0].body;
    assert_eq!(body.len(), 6);
    assert!(matches!(body[0], Instruction::Op { vreg: 1, kind: OpKind::CmpSlt, ty: Type::I32, .. }));
    match &body[1] {
        Instruction::Br { cond: Value::Vreg(1), true_br, false_br } => {
            assert_eq!(true_br, &b"neg".to_vec());
            assert_eq!(false_br, &b"pos".to_vec());
        }
        other => panic!("unexpected {:?}", other),
    }
    assert!(matches!(&body[2], Instruction::Label(l) if l == &b"neg".to_vec()));
    assert!(matches!(&body[5], Instruction::Jmp(l) if l == &b"neg".to_vec()));
}

#[test]
fn parses_memory_instructions_and_calls() {
    let src = "define extern @g(i32) void\ndefine @f() i32 {\n%p = alloc i32, 5\nstore i32 %p, 7\n%q = offset %p, i32, 2\n%v = load i32 %q\ncall void @g(i32 %v)\n%r = call i32 @g(i32 1)\nret i32 %r\n}";
    let m = parse(src).unwrap();
    let body = &m.functions[1].body;
    assert!(matches!(body[0], Instruction::Alloc { vreg: 0, num: 5, ty: Type::I32 }));
    assert!(matches!(body[1], Instruction::Store { ptr: Value::Vreg(0), val: Value::IntLit(7), ty: Type::I32 }));
    assert!(matches!(body[2], Instruction::Offset { vreg: 1, ptr: Value::Vreg(0), idx: 2, ty: Type::I32 }));
    assert!(matches!(body[3], Instruction::Load { vreg: 2, ptr: Value::Vreg(1), ty: Type::I32 }));
    match &body[4] {
        Instruction::Call { func, args, ty: Type::Void, discard_value: true, .. } => {
            assert_eq!(func, &b"g".to_vec());
            assert_eq!(args.len(), 1);
            assert!(matches!(args[0], (Type::I32, Value::Vreg(2))));
        }
        other => panic!("unexpected {:?}", other),
    }
    assert!(matches!(body[5], Instruction::Call { vreg: 3, ty: Type::I32, discard_value: false, .. }));
}

#[test]
fn parses_global_data_encodings() {
    let src = "data constant @g = { i32 -1, i1 5, i1 -3, f32 1, f32 16777217, f32 -0, ascii \"Hi\", i1 0 }";
    let m = parse(src).unwrap();
    assert_eq!(m.globals.len(), 1);
    let g = &m.globals[0];
    assert_eq!(g.name, b"g".to_vec());
    assert!(g.is_constant);
    assert_eq!(
        g.val,
        vec![
            0xff, 0xff, 0xff, 0xff, 1, 0, 0, 0, 0x80, 0x3f, 0, 0, 0x80, 0x4b, 0, 0, 0, 0x80, 72, 105, 0
        ]
    );
}

#[test]
fn data_without_constant_is_mutable() {
    let m = parse("data @msg = { ascii \"Hello, World!\", i1 0 }").unwrap();
    assert!(!m.globals[0].is_constant);
    assert_eq!(m.globals[0].val.len(), 14);
}

#[test]
fn undeclared_register_is_an_error() {
    assert_eq!(
        parse("define @f() i32 {\nret i32 %x\n}").unwrap_err(),
        ParseError::UndeclaredVreg { start: 27, end: 28 }
    );
}

#[test]
fn unknown_item_is_an_error() {
    assert_eq!(
        parse("foo").unwrap_err(),
        ParseError::ExpectedItem { found: TokenKind::Error, start: 0, end: 3 }
    );
}

#[test]
fn missing_value_is_an_error() {
    assert_eq!(
        parse("define @f() i32 {\nret i32 }").unwrap_err(),
        ParseError::ExpectedValue { found: TokenKind::Rbrace, start: 26, end: 27 }
    );
}

#[test]
fn missing_type_is_an_error() {
    assert_eq!(
        parse("define @f() banana {").unwrap_err(),
        ParseError::ExpectedType { found: TokenKind::Error, start: 12, end: 18 }
    );
}

#[test]
fn unexpected_token_is_an_error() {
    assert_eq!(
        parse("define @f( i32").unwrap_err(),
        ParseError::UnexpectedToken { expected: TokenKind::Vreg, found: TokenKind::I32, start: 11, end: 14 }
    );
}


#[test]
fn out_of_range_datum_is_an_error() {
    assert_eq!(parse("data @g = { i1 300 }").unwrap_err(), ParseError::InvalidNumber { start: 15, end: 18 });
}

#[test]
fn pointer_data_is_unsupported() {
    assert_eq!(parse("data @g = { ptr 0 }").unwrap_err(), ParseError::UnsupportedData { ty: Type::Ptr });
}

#[test]
fn empty_source_is_an_empty_module() {
    let m = parse("").unwrap();
    assert!(m.functions.is_empty());
    assert!(m.globals.is_empty());
}

#[test]
fn register_names_are_local_to_their_function() {
    let m = parse("define @f() i32 {\n %x = copy i32 1\n ret i32 %x\n}\ndefine @g(%p i32) i32 {\n %x = copy i32 2\n ret i32 %p\n}").unwrap();
    let g = &m.functions[1];
    assert_eq!(g.params[0].vreg, 0);
    assert!(matches!(g.body[0], Instruction::Copy { vreg: 1, val: Value::IntLit(2), ty: Type::I32 }));
    assert!(matches!(g.body[1], Instruction::Ret { val: Value::Vreg(0), ty: Type::I32 }));
}

#[test]
fn a_register_of_another_function_is_undeclared() {
    assert!(matches!(
        parse("define @f() i32 {\n %x = copy i32 1\n ret i32 %x\n}\ndefine @g() i32 {\n ret i32 %x\n}"),
        Err(ParseError::UndeclaredVreg { .. })
    ));
}

#[test]
fn unsigned_division_is_an_assigned_operation() {
    let m = parse("define @f() i32 {\n%r = udiv i32 2, 2\nret i32 %r\n}").unwrap();
    assert!(matches!(
        m.functions[0].body[0],
        Instruction::Op { vreg: 0, kind: OpKind::Udiv, lhs: Value::IntLit(2), rhs: Value::IntLit(2), ty: Type::I32 }
    ));
}
