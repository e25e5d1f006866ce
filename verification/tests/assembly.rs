use minic::assembly::{
    create_tacky, render_asm, BinaryOperator, CodegenError, Instruction, LabelManager, Register, RenderError,
    UnaryOperator, Value,
};
use minic::lexing::tokenize;
use minic::parsing::{parse, BlockItem, Expression, Function, Program, Statement, VarDeclaration};
use minic::stack::{create_stack_frame, StackAddr};
use minic::typing::Type;

fn source_lines(src: &str) -> Vec<String> {
    src.split_inclusive('\n').map(|l| l.to_string()).collect()
}

fn main_program(body: &str) -> Program {
    let src = format!("func main() -> i32 {{\n{}\n}}\n", body);
    parse(tokenize(&source_lines(&src)).unwrap()).unwrap()
}

const HEADER: &str = "\t.globl WinMain\nWinMain:\n\tcall _main\n\tret\n";

fn text_of(i: &Instruction) -> Result<String, RenderError> {
    let mut out = String::new();
    i.write_to(&mut out).map(|_| out)
}

/// A 4-byte slot at offset 4 and one at offset 8, from a frame of two variables.
fn two_slots() -> (StackAddr, StackAddr) {
    let p = main_program("let x: i32 = 1;\nreturn x;");
    let mut f = create_stack_frame(&p.body[0]).unwrap();
    let a = f.reserve_var("a".to_string(), 4);
    let b = f.reserve_var("b".to_string(), 4);
    (a, b)
}

fn int32(value: i32) -> Expression {
    Expression::Int32Constant { value, expr_type: Type::Unknown }
}

fn declare(name: &str, value: i32) -> BlockItem {
    BlockItem::VarDeclaration(VarDeclaration { name: name.to_string(), init_value: Some(int32(value)), var_type: Type::Int32 })
}

fn return_var(name: &str) -> BlockItem {
    BlockItem::Statement(Statement::Return {
        value: Some(Box::new(Expression::Var { name: name.to_string(), expr_type: Type::Unknown })),
    })
}

fn main_with(body: Vec<BlockItem>) -> Program {
    Program {
        body: vec![Function {
            name: "main".to_string(),
            body,
            func_type: Type::FuncType { return_type: Box::new(Type::Int32), param_types: Vec::new() },
        }],
    }
}

#[test]
fn code_of_constant_return() {
    let is = create_tacky(main_program("return 2;")).unwrap();
    assert_eq!(is.len(), 4);
    assert!(matches!(&is[0], Instruction::StackSetup { size: 0, func_name } if func_name == "main"));
    assert!(matches!(&is[1], Instruction::Copy { src: Value::Int32Literal(2), dest: Value::Register(Register::EAX) }));
    assert!(matches!(&is[2], Instruction::Jump { dest } if dest == "return0"));
    assert!(matches!(&is[3], Instruction::StackCleanup { size: 0, return_label } if return_label == "return0"));
    let text = render_asm(&is).unwrap();
    let expected = String::from(HEADER)
        + "\t.globl _main\n_main:\n\tpushq %rbp\n\tmovq %rsp, %rbp\n\tsubq $0, %rsp\n"
        + "\tmovl $2, %eax\n"
        + "\tjmp return0\n"
        + "return0:\n\tmovq %rbp, %rsp\n\tpopq %rbp\n\tret\n";
    assert_eq!(text, expected);
}

#[test]
fn code_of_variable_and_addition() {
    let is = create_tacky(main_program("let x: i32 = 1 + 2;\nreturn x;")).unwrap();
    let text = render_asm(&is).unwrap();
    let expected = String::from(HEADER)
        + "\t.globl _main\n_main:\n\tpushq %rbp\n\tmovq %rsp, %rbp\n\tsubq $4, %rsp\n"
        + "\tmovl $2, -0(%rbp)\n"
        + "\tmovl $1, %eax\n"
        + "\taddl -0(%rbp), %eax\n"
        + "\tmovl %eax, -4(%rbp)\n"
        + "\tmovl -4(%rbp), %eax\n"
        + "\tjmp return0\n"
        + "return0:\n\tmovq %rbp, %rsp\n\tpopq %rbp\n\tret\n";
    assert_eq!(text, expected);
    assert!(matches!(is.last().unwrap(), Instruction::StackCleanup { size: 8, .. }));
}

#[test]
fn code_of_two_functions_numbers_return_labels() {
    let src = "func main() -> i32 { return 1; }\nfunc g() -> i32 { return 2; }\n";
    let p = parse(tokenize(&source_lines(src)).unwrap()).unwrap();
    let is = create_tacky(p).unwrap();
    assert!(matches!(&is[3], Instruction::StackCleanup { return_label, .. } if return_label == "return0"));
    assert!(matches!(&is[6], Instruction::Jump { dest } if dest == "return1"));
}

#[test]
fn binary_operation_without_free_slot_fails() {
    assert!(matches!(create_tacky(main_program("return 1 + 2;")), Err(CodegenError::NoFreeSlot)));
}

#[test]
fn codegen_unknown_variable() {
    match create_tacky(main_program("return y;")) {
        Err(CodegenError::UnknownVariable(name)) => assert_eq!(name, "y"),
        _ => panic!("expected an unknown variable"),
    }
}

#[test]
fn codegen_duplicate_variable() {
    match create_tacky(main_program("let x: i32;\nlet x: i32;\nreturn x;")) {
        Err(CodegenError::DuplicateVariable(name)) => assert_eq!(name, "x"),
        _ => panic!("expected a duplicate variable"),
    }
}

#[test]
fn codegen_invalid_binary_operator() {
    match create_tacky(main_program("let x: i32 = 1;\nreturn x && 1;")) {
        Err(CodegenError::InvalidBinaryOperator(op)) => assert_eq!(op, "&&"),
        _ => panic!("expected an invalid binary operator"),
    }
}

#[test]
fn codegen_invalid_unary_operator() {
    let e = Expression::UnaryOp {
        operator: "++r".to_string(),
        target: Box::new(Expression::Var { name: "x".to_string(), expr_type: Type::Unknown }),
        expr_type: Type::Unknown,
    };
    let p = main_with(vec![declare("x", 1), BlockItem::Statement(Statement::Return { value: Some(Box::new(e)) })]);
    match create_tacky(p) {
        Err(CodegenError::InvalidUnaryOperator(op)) => assert_eq!(op, "++r"),
        _ => panic!("expected an invalid unary operator"),
    }
}

#[test]
fn block_variables_are_unbound_after_the_block() {
    // `y` may be declared again after the block that declared it
    let block = BlockItem::Statement(Statement::Block { items: vec![declare("y", 1)] });
    let p = main_with(vec![block, declare("y", 2), return_var("y")]);
    let is = create_tacky(p).unwrap();
    assert!(is.iter().any(|i| matches!(i, Instruction::Label { label } if label == "block_end0")));
    let p = main_with(vec![declare("y", 1), declare("y", 2), return_var("y")]);
    assert!(matches!(create_tacky(p), Err(CodegenError::DuplicateVariable(_))));
}

#[test]
fn negation_renders() {
    let is = create_tacky(main_program("return -3;")).unwrap();
    assert!(matches!(&is[2], Instruction::Unary { operator: UnaryOperator::Negate, .. }));
    let text = render_asm(&is).unwrap();
    assert!(text.contains("\tmovl $3, %eax\n\tneg %eax\n"));
}

#[test]
fn labels_are_numbered_per_name() {
    let mut m = LabelManager::new();
    assert!(!m.has_label("block_end"));
    assert_eq!(m.label_count("block_end"), None);
    assert_eq!(m.gen_label("block_end"), "block_end0");
    assert_eq!(m.gen_label("block_end"), "block_end1");
    assert_eq!(m.gen_ret_label(), "return0");
    assert_eq!(m.gen_label("block_end"), "block_end2");
    assert!(m.has_label("block_end"));
    assert_eq!(m.label_count("block_end"), Some(2));
    assert_eq!(m.last_label("block_end"), "block_end2");
    assert_eq!(m.last_ret_label(), "return0");
}

#[test]
fn a_new_label_differs_from_all_earlier_ones() {
    let mut m = LabelManager::new();
    let mut seen: Vec<String> = Vec::new();
    for _ in 0..25 {
        let l = m.gen_label("l");
        assert!(!seen.contains(&l));
        seen.push(l);
    }
    assert_eq!(seen[10], "l10");
}

#[test]
fn operators_from_text() {
    assert_eq!(UnaryOperator::from_operator(&"-".to_string()), Some(UnaryOperator::Negate));
    assert_eq!(UnaryOperator::from_operator(&"!".to_string()), Some(UnaryOperator::Not));
    assert_eq!(UnaryOperator::from_operator(&"~".to_string()), Some(UnaryOperator::Compliment));
    assert_eq!(UnaryOperator::from_operator(&"+".to_string()), None);
    assert_eq!(BinaryOperator::from_operator(&"+".to_string()), Some(BinaryOperator::Add));
    assert_eq!(BinaryOperator::from_operator(&"/".to_string()), Some(BinaryOperator::Divide));
    assert_eq!(BinaryOperator::from_operator(&"<=".to_string()), Some(BinaryOperator::LessOrEqual));
    assert_eq!(BinaryOperator::from_operator(&">".to_string()), Some(BinaryOperator::GreaterThan));
    assert_eq!(BinaryOperator::from_operator(&"&&".to_string()), None);
}

#[test]
fn register_names() {
    assert_eq!(Register::RAX.name(), "%rax");
    assert_eq!(Register::EAX.name(), "%eax");
    assert_eq!(Register::AH.name(), "%ah");
    assert_eq!(Register::SIL.name(), "%sil");
    assert_eq!(Register::DIL.name(), "%dil");
}

#[test]
fn operand_views() {
    let eax = Value::Register(Register::EAX);
    assert!(eax.is_storage());
    assert!(eax.has_n_byte_view(1));
    assert!(!eax.has_n_byte_view(3));
    // a register's view is the first register of its group
    assert_eq!(eax.get_n_byte_view(1), Value::Register(Register::RAX));
    assert_eq!(Value::Register(Register::SIL).get_n_byte_view(4), Value::Register(Register::RSI));
    let c = Value::Int32Literal(5);
    assert!(!c.is_storage());
    assert!(!c.has_n_byte_view(4));
    let (a, _) = two_slots();
    let slot = Value::Address(a);
    assert!(slot.is_storage());
    assert!(slot.has_n_byte_view(1));
    assert!(!slot.has_n_byte_view(8));
    match slot.get_n_byte_view(1) {
        Value::Address(v) => {
            assert_eq!(v.offset(), 7);
            assert_eq!(v.size(), 1);
            assert!(!Value::Address(v).has_n_byte_view(1));
        },
        _ => panic!("expected a slot"),
    }
}

#[test]
fn copy_texts() {
    let (a, b) = two_slots();
    let eax = Value::Register(Register::EAX);
    let copy = Instruction::Copy { src: Value::Address(a), dest: Value::Address(b) };
    assert_eq!(text_of(&copy).unwrap(), "\tmovl -4(%rbp), %ecx\n\tmovl %ecx, -8(%rbp)\n");
    let same = Instruction::Copy { src: eax, dest: eax };
    assert_eq!(text_of(&same).unwrap(), "");
    let lit = Instruction::Copy { src: Value::Int32Literal(-7), dest: eax };
    assert_eq!(text_of(&lit).unwrap(), "\tmovl $-7, %eax\n");
}

#[test]
fn jump_and_label_texts() {
    let eax = Value::Register(Register::EAX);
    assert_eq!(text_of(&Instruction::Jump { dest: "l0".to_string() }).unwrap(), "\tjmp l0\n");
    assert_eq!(
        text_of(&Instruction::JumpIfZero { condition: eax, dest: "l1".to_string() }).unwrap(),
        "\tcmpl %eax, 0\n\tje l1\n"
    );
    assert_eq!(
        text_of(&Instruction::JumpNotZero { condition: eax, dest: "l2".to_string() }).unwrap(),
        "\tcmpl %eax, 0\n\tjne l2\n"
    );
    assert_eq!(text_of(&Instruction::Label { label: "l3".to_string() }).unwrap(), "l3:\n");
    assert_eq!(
        text_of(&Instruction::StackSetup { size: 16, func_name: "f".to_string() }).unwrap(),
        "\t.globl _f\n_f:\n\tpushq %rbp\n\tmovq %rsp, %rbp\n\tsubq $16, %rsp\n"
    );
    assert_eq!(
        text_of(&Instruction::StackCleanup { size: 16, return_label: "return3".to_string() }).unwrap(),
        "return3:\n\tmovq %rbp, %rsp\n\tpopq %rbp\n\tret\n"
    );
}

#[test]
fn arithmetic_texts() {
    let (a, _) = two_slots();
    let eax = Value::Register(Register::EAX);
    let ecx = Value::Register(Register::ECX);
    let add = Instruction::Binary { operator: BinaryOperator::Add, left: eax, right: Value::Address(a), dest: eax };
    assert_eq!(text_of(&add).unwrap(), "\taddl -4(%rbp), %eax\n");
    let sub = Instruction::Binary { operator: BinaryOperator::Subtract, left: ecx, right: Value::Int32Literal(2), dest: eax };
    assert_eq!(text_of(&sub).unwrap(), "\tmovl %ecx, %eax\n\tsubl $2, %eax\n");
    let div = Instruction::Binary { operator: BinaryOperator::Divide, left: ecx, right: Value::Address(a), dest: ecx };
    assert_eq!(text_of(&div).unwrap(), "\tmovl %ecx, %eax\n\tcdq\n\tidiv -4(%rbp)\n\tmovl %eax, %ecx\n");
    let neg = Instruction::Unary { operator: UnaryOperator::Compliment, target: ecx, dest: eax };
    assert_eq!(text_of(&neg).unwrap(), "\tmovl %ecx, %eax\n\tnot %eax\n");
}

#[test]
fn comparison_texts_use_the_low_view() {
    let eax = Value::Register(Register::EAX);
    let eq = Instruction::Binary { operator: BinaryOperator::Equal, left: eax, right: Value::Int32Literal(1), dest: eax };
    assert_eq!(text_of(&eq).unwrap(), "\tcmpl $1, %eax\nmovl $0, %eax\n\tsete %rax\n");
    let not = Instruction::Unary { operator: UnaryOperator::Not, target: eax, dest: eax };
    assert_eq!(text_of(&not).unwrap(), "\tcmpl $0, %eax\n\tmovl $0, %eax\n\tsete %rax\n");
}

#[test]
fn comparison_into_constant_has_no_text() {
    let eax = Value::Register(Register::EAX);
    let lt = Instruction::Binary { operator: BinaryOperator::LessThan, left: eax, right: eax, dest: Value::Int32Literal(0) };
    assert_eq!(text_of(&lt), Err(RenderError::InvalidDestination));
    let not = Instruction::Unary { operator: UnaryOperator::Not, target: eax, dest: Value::Int32Literal(0) };
    assert_eq!(text_of(&not), Err(RenderError::InvalidDestination));
    let is = vec![Instruction::Label { label: "x".to_string() }, lt];
    assert_eq!(render_asm(&is), Err(RenderError::InvalidDestination));
}

#[test]
fn render_of_no_instructions_is_the_header() {
    assert_eq!(render_asm(&Vec::new()).unwrap(), HEADER);
}

#[test]
fn every_jump_goes_to_a_placed_label() {
    let y = || Box::new(Expression::Var { name: "y".to_string(), expr_type: Type::Unknown });
    let inner = vec![
        declare("y", 1),
        BlockItem::Statement(Statement::Yield { value: Some(y()) }),
        BlockItem::Statement(Statement::Return { value: Some(y()) }),
    ];
    let body = vec![
        BlockItem::Statement(Statement::Block { items: inner }),
        BlockItem::Statement(Statement::Return { value: Some(Box::new(int32(0))) }),
    ];
    let mut p = main_with(body);
    p.body.push(Function {
        name: "g".to_string(),
        body: vec![BlockItem::Statement(Statement::Return { value: Some(Box::new(int32(3))) })],
        func_type: Type::FuncType { return_type: Box::new(Type::Int32), param_types: Vec::new() },
    });
    let is = create_tacky(p).unwrap();
    let mut placed: Vec<String> = Vec::new();
    let mut targets: Vec<String> = Vec::new();
    for i in is.iter() {
        match i {
            Instruction::Label { label } => placed.push(label.clone()),
            Instruction::StackCleanup { return_label, .. } => placed.push(return_label.clone()),
            Instruction::Jump { dest } | Instruction::JumpIfZero { dest, .. } | Instruction::JumpNotZero { dest, .. } => {
                targets.push(dest.clone())
            },
            _ => {},
        }
    }
    assert_eq!(targets, vec!["block_end0", "return0", "return0", "return1"]);
    assert_eq!(placed, vec!["block_end0", "return0", "return1"]);
}

#[test]
fn operand_texts() {
    let (a, b) = two_slots();
    assert_eq!(a.to_text(), "-4(%rbp)");
    assert_eq!(Value::Address(b).to_text(), "-8(%rbp)");
    assert_eq!(Value::Register(Register::EDX).to_text(), "%edx");
    assert_eq!(Value::Int32Literal(-2147483648).to_text(), "$-2147483648");
    assert_eq!(Value::Int32Literal(0).to_text(), "$0");
}

#[test]
fn text_of_joined_runs_is_joined_text() {
    let first = || vec![Instruction::Label { label: "a".to_string() }, Instruction::Jump { dest: "b".to_string() }];
    let second = || vec![Instruction::Copy { src: Value::Int32Literal(1), dest: Value::Register(Register::EAX) }];
    let mut both = first();
    both.extend(second());
    let t1 = render_asm(&first()).unwrap();
    let t2 = render_asm(&second()).unwrap();
    let t = render_asm(&both).unwrap();
    assert_eq!(t, format!("{}{}", t1, &t2[HEADER.len()..]));
    assert_eq!(t, format!("{}a:\n\tjmp b\n\tmovl $1, %eax\n", HEADER));
}

#[test]
fn failed_write_leaves_text_as_it_was() {
    let eax = Value::Register(Register::EAX);
    let not = Instruction::Unary { operator: UnaryOperator::Not, target: eax, dest: Value::Int32Literal(0) };
    let mut out = String::from("before\n");
    assert_eq!(not.write_to(&mut out), Err(RenderError::InvalidDestination));
    assert_eq!(out, "before\n");
    let ge = Instruction::Binary { operator: BinaryOperator::GreaterOrEqual, left: eax, right: eax, dest: Value::Int32Literal(1) };
    assert_eq!(ge.write_to(&mut out), Err(RenderError::InvalidDestination));
    assert_eq!(out, "before\n");
}

#[test]
fn slots_are_never_returned_twice() {
    let src = "let a: i32 = 1;\nlet b: i32 = a + 2;\n{ let c: i32 = a * b; let d: i32 = c - a; return d + (b - c); }";
    let p = parse(tokenize(&source_lines(&format!("func main() -> i32 {{\n{}\n", src))).unwrap()).unwrap();
    let is = create_tacky(p).unwrap();
    assert!(matches!(&is[0], Instruction::StackSetup { size: 24, .. }));
}

#[test]
fn declarations_without_room_share_a_slot() {
    let none = |name: &str| BlockItem::VarDeclaration(VarDeclaration {
        name: name.to_string(),
        init_value: None,
        var_type: Type::Unknown,
    });
    let p = main_with(vec![none("u"), none("v"), BlockItem::Statement(Statement::Return { value: Some(Box::new(int32(0))) })]);
    assert!(matches!(create_stack_frame(&p.body[0]), Err(minic::stack::StackError::DoubleFree)));
    assert!(matches!(create_tacky(p), Err(CodegenError::Stack(minic::stack::StackError::DoubleFree))));
}
