use minic::debugging::{indent_string, program_fits_indent, PrettyPrint};
use minic::lexing::tokenize;
use minic::parsing::{parse, BlockItem, Expression, Program, Statement, VarDeclaration};
use minic::typing::Type;

fn source_lines(src: &str) -> Vec<String> {
    src.split_inclusive('\n').map(|l| l.to_string()).collect()
}

fn program(src: &str) -> Program {
    parse(tokenize(&source_lines(src)).unwrap()).unwrap()
}

#[test]
fn indentation_is_three_spaces_per_level() {
    assert_eq!(indent_string(0), "");
    assert_eq!(indent_string(2), "      ");
}

#[test]
fn prints_minimal_program() {
    let p = program("func main() -> i32 { return 2; }\n");
    let expected = "Program{\n   Function[\"main\"] {\n      Return {\n         Int32Constant[\"2\"]\n      }\n   }\n}";
    assert_eq!(p.pretty_print(0), expected);
    assert_eq!(p.pretty_println(0), format!("{}\n", expected));
}

#[test]
fn prints_declarations_and_assignments() {
    let p = program("func f() -> i32 {\nlet x: i32;\nx = -1;\nreturn x;\n}\n");
    let f = &p.body[0];
    assert_eq!(f.body[0].pretty_print(0), "VarDef[\"x\"] {}");
    // an expression statement is printed one level deeper
    assert_eq!(f.body[1].pretty_print(0), "   VarAssign[\"x\"] {\n      UnaryOp[\"-\"] {\n         Int32Constant[\"1\"]\n      }\n   }");
    assert_eq!(f.body[2].pretty_print(1), "   Return {\n      Var[\"x\"]\n   }");
}

#[test]
fn prints_binary_operation() {
    let e = Expression::BinaryOp {
        operator: "+".to_string(),
        left: Box::new(Expression::Int32Constant { value: 1, expr_type: Type::Unknown }),
        right: Box::new(Expression::Var { name: "y".to_string(), expr_type: Type::Unknown }),
        expr_type: Type::Unknown,
    };
    let expected = "BinaryOp[\"+\"] {\n\tleft=>{\n      Int32Constant[\"1\"]\n\t}\n\tright=>{\n      Var[\"y\"]\n\t}\n}";
    assert_eq!(e.pretty_print(0), expected);
}

#[test]
fn prints_blocks_and_yields() {
    let inner = vec![BlockItem::Statement(Statement::Yield { value: None })];
    let block = Statement::Block { items: inner };
    assert_eq!(block.pretty_print(0), "Block {\n   Yield{}\n}");
    let ret = Statement::Return { value: None };
    assert_eq!(ret.pretty_print(1), "   Return{}");
    let e = Expression::BlockExpression {
        items: vec![BlockItem::Statement(Statement::Yield {
            value: Some(Box::new(Expression::Int32Constant { value: -4, expr_type: Type::Int32 })),
        })],
        expr_type: Type::Unknown,
    };
    assert_eq!(e.pretty_print(0), "BlockExpression {\n   Yield {\n      Int32Constant[\"-4\"]\n   }\n}");
}

#[test]
fn prints_declaration_with_value() {
    let d = VarDeclaration {
        name: "z".to_string(),
        init_value: Some(Expression::Int32Constant { value: 7, expr_type: Type::Unknown }),
        var_type: Type::Int32,
    };
    assert_eq!(d.pretty_print(0), "VarDef[\"z\"] {\n   Int32Constant[\"7\"]\n}");
}

#[test]
fn prints_empty_program() {
    let p = Program { body: Vec::new() };
    assert_eq!(p.pretty_print(1), "   Program{\n   }");
}

#[test]
fn printing_depth_fits_below_the_limit() {
    let p = program("func main() -> i32 { return -(1 + 2); }\n");
    assert!(program_fits_indent(&p, 0));
    assert!(program_fits_indent(&p, usize::MAX - 6));
    assert!(!program_fits_indent(&p, usize::MAX - 5));
    let empty = Program { body: Vec::new() };
    assert!(program_fits_indent(&empty, usize::MAX - 1));
    assert!(!program_fits_indent(&empty, usize::MAX));
}
