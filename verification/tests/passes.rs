use minic::lexing::tokenize;
use minic::parsing::{parse, BlockItem, Expression, Function, Program, Statement, VarDeclaration};
use minic::passes::solve_types::{solve_types, SolveError};
use minic::passes::validate_types::{validate_types, TypeCheckError};
use minic::passes::validate_yields::YieldError;
use minic::passes::var_scoping::ScopeError;
use minic::passes::var_validation::VarError;
use minic::passes::{scope_vars, validate_returns, validate_vars};
use minic::typing::Type;

fn source_lines(src: &str) -> Vec<String> {
    src.split_inclusive('\n').map(|l| l.to_string()).collect()
}

fn program(src: &str) -> Program {
    parse(tokenize(&source_lines(src)).unwrap()).unwrap()
}

fn main_program(body: &str) -> Program {
    program(&format!("func main() -> i32 {{\n{}\n}}\n", body))
}

/// A `main` whose body ends in a block: the block's closing brace also closes the body.
fn block_program(body: &str) -> Program {
    program(&format!("func main() -> i32 {{\n{}\n", body))
}

fn int32(value: i32) -> Expression {
    Expression::Int32Constant { value, expr_type: Type::Unknown }
}

fn func_type() -> Type {
    Type::FuncType { return_type: Box::new(Type::Int32), param_types: Vec::new() }
}

fn function(name: &str, body: Vec<BlockItem>) -> Function {
    Function { name: name.to_string(), body, func_type: func_type() }
}

fn declared_name(item: &BlockItem) -> &str {
    match item {
        BlockItem::VarDeclaration(d) => d.name.as_str(),
        _ => panic!("expected a declaration"),
    }
}

fn returned(item: &BlockItem) -> &Expression {
    match item {
        BlockItem::Statement(Statement::Return { value: Some(v) }) => v,
        _ => panic!("expected a return with a value"),
    }
}

// --- variable validation

#[test]
fn valid_variables_pass() {
    let p = main_program("let x: i32 = 1;\nx = x + 2;\nreturn x;");
    assert!(validate_vars(&p).is_ok());
}

#[test]
fn use_before_definition_is_reported() {
    let p = main_program("let x: i32 = 1;\nreturn y;");
    match validate_vars(&p) {
        Err(VarError::UsedBeforeDefinition(name)) => assert_eq!(name, "y"),
        _ => panic!("expected a use before definition"),
    }
}

#[test]
fn assignment_to_undefined_variable_is_reported() {
    let p = main_program("z = 1;\nreturn 0;");
    match validate_vars(&p) {
        Err(VarError::UsedBeforeDefinition(name)) => assert_eq!(name, "z"),
        _ => panic!("expected a use before definition"),
    }
}

#[test]
fn redeclaration_in_one_scope_is_not_reported() {
    // a name already in scope is not declared again
    let p = main_program("let x: i32;\nlet x: i32;\nreturn x;");
    assert!(validate_vars(&p).is_ok());
}

#[test]
fn block_variables_go_out_of_scope() {
    // the block's `y` is gone after it: the function body is closed by the block's brace
    let p = block_program("{ let y: i32 = 1; return y; }");
    assert!(validate_vars(&p).is_ok());
    let mut f = function("f", Vec::new());
    let inner = vec![BlockItem::VarDeclaration(VarDeclaration { name: "y".to_string(), init_value: None, var_type: Type::Int32 })];
    f.body.push(BlockItem::Statement(Statement::Block { items: inner }));
    f.body.push(BlockItem::Statement(Statement::Return {
        value: Some(Box::new(Expression::Var { name: "y".to_string(), expr_type: Type::Unknown })),
    }));
    let p = Program { body: vec![f] };
    match validate_vars(&p) {
        Err(VarError::UsedBeforeDefinition(name)) => assert_eq!(name, "y"),
        _ => panic!("expected a use before definition"),
    }
}

#[test]
fn declaration_values_are_not_checked() {
    let p = main_program("let x: i32 = nothing;\nreturn x;");
    assert!(validate_vars(&p).is_ok());
}

// --- scoping

#[test]
fn scoping_renames_declarations_and_uses() {
    let mut p = main_program("let x: i32 = 1;\nreturn x;");
    scope_vars(&mut p).unwrap();
    let body = &p.body[0].body;
    assert_eq!(declared_name(&body[0]), "x:0");
    match returned(&body[1]) {
        Expression::Var { name, .. } => assert_eq!(name, "x:0"),
        _ => panic!("expected a variable"),
    }
}

#[test]
fn scoping_uses_innermost_declaration() {
    let mut p = block_program("let x: i32 = 1;\n{ let x: i32 = 2; return x; }");
    scope_vars(&mut p).unwrap();
    let body = &p.body[0].body;
    assert_eq!(declared_name(&body[0]), "x:0");
    match &body[1] {
        BlockItem::Statement(Statement::Block { items }) => {
            assert_eq!(declared_name(&items[0]), "x:1");
            match returned(&items[1]) {
                Expression::Var { name, .. } => assert_eq!(name, "x:1"),
                _ => panic!("expected a variable"),
            }
        },
        _ => panic!("expected a block"),
    }
}

#[test]
fn scoping_unknown_variable_leaves_program_unchanged() {
    let mut p = main_program("let x: i32 = 1;\nreturn y;");
    match scope_vars(&mut p) {
        Err(ScopeError::UnknownVariable(name)) => assert_eq!(name, "y"),
        _ => panic!("expected an unknown variable"),
    }
    assert_eq!(declared_name(&p.body[0].body[0]), "x");
}

#[test]
fn scoping_looks_into_assigned_values() {
    // validation accepts this program, scoping does not
    let mut p = main_program("let a: i32;\na = b;\nreturn a;");
    assert!(validate_vars(&p).is_ok());
    match scope_vars(&mut p) {
        Err(ScopeError::UnknownVariable(name)) => assert_eq!(name, "b"),
        _ => panic!("expected an unknown variable"),
    }
}

// --- returns and yields

#[test]
fn function_with_return_passes() {
    let p = main_program("let x: i32 = 1;\nreturn x;");
    assert_eq!(validate_returns(&p), Ok(()));
}

#[test]
fn return_inside_block_counts() {
    let p = block_program("{ return 1; }");
    assert_eq!(validate_returns(&p), Ok(()));
}

#[test]
fn function_without_return_is_named() {
    let p = program("func a() -> i32 { return 1; }\nfunc b() -> i32 { 1; }\nfunc c() -> i32 { 2; }\n");
    assert_eq!(validate_returns(&p), Err("b".to_string()));
}

#[test]
fn yield_check_rejects_every_function() {
    let p = main_program("return 1;");
    match minic::passes::validate_yields::validate_returns(&p) {
        Err(YieldError::OutsideBlockInFunction(name)) => assert_eq!(name, "main"),
        _ => panic!("expected the function to be rejected"),
    }
    let empty = Program { body: Vec::new() };
    assert!(minic::passes::validate_yields::validate_returns(&empty).is_ok());
}

#[test]
fn yield_check_block_without_yield_at_top_level() {
    let p = block_program("{ return 1; }");
    assert!(matches!(minic::passes::validate_yields::validate_returns(&p), Err(YieldError::OutsideBlock)));
}

// --- type validation

#[test]
fn parsed_program_type_checks() {
    let mut p = main_program("let x: i32 = 1;\nreturn x;");
    assert!(validate_types(&mut p).is_ok());
}

#[test]
fn non_function_type_is_illegal() {
    let mut p = Program { body: vec![Function { name: "f".to_string(), body: Vec::new(), func_type: Type::Int32 }] };
    match validate_types(&mut p) {
        Err(TypeCheckError::IllegalFunctionType(name)) => assert_eq!(name, "f"),
        _ => panic!("expected an illegal function type"),
    }
}

#[test]
fn return_without_value_is_missing_one() {
    let mut p = Program { body: vec![function("f", vec![BlockItem::Statement(Statement::Return { value: None })])] };
    assert!(matches!(validate_types(&mut p), Err(TypeCheckError::MissingReturnValue)));
}

#[test]
fn yield_with_value_outside_yielding_block() {
    let item = BlockItem::Statement(Statement::Yield { value: Some(Box::new(int32(1))) });
    let mut p = Program { body: vec![function("f", vec![item])] };
    assert!(matches!(validate_types(&mut p), Err(TypeCheckError::UnexpectedYieldValue)));
    let item = BlockItem::Statement(Statement::Yield { value: None });
    let mut p = Program { body: vec![function("f", vec![item])] };
    assert!(validate_types(&mut p).is_ok());
}

// --- type inference

#[test]
fn types_are_inferred() {
    let mut p = main_program("let x: i32 = 1;\nreturn x + 2;");
    solve_types(&mut p).unwrap();
    let body = &p.body[0].body;
    match &body[0] {
        BlockItem::VarDeclaration(d) => assert!(matches!(d.init_value.as_ref().unwrap().get_type(), Type::Int32)),
        _ => panic!("expected a declaration"),
    }
    match returned(&body[1]) {
        Expression::BinaryOp { left, right, expr_type, .. } => {
            assert!(matches!(expr_type, Type::Int32));
            assert!(matches!(left.get_type(), Type::Int32));
            assert!(matches!(right.get_type(), Type::Int32));
        },
        _ => panic!("expected a binary operation"),
    }
}

#[test]
fn unknown_identifier_in_inference() {
    let mut p = main_program("return y;");
    match solve_types(&mut p) {
        Err(SolveError::UnknownIdentifier(name)) => assert_eq!(name, "y"),
        _ => panic!("expected an unknown identifier"),
    }
}

#[test]
fn function_name_operand_cannot_be_converted() {
    let mut p = main_program("return main + 1;");
    assert!(matches!(solve_types(&mut p), Err(SolveError::InvalidConversionCheck)));
}

#[test]
fn any_operand_takes_the_other_type() {
    let left = Expression::Var { name: "a".to_string(), expr_type: Type::Any };
    let e = Expression::BinaryOp {
        operator: "+".to_string(),
        left: Box::new(left),
        right: Box::new(int32(1)),
        expr_type: Type::Unknown,
    };
    let item = BlockItem::Statement(Statement::Return { value: Some(Box::new(e)) });
    let mut p = Program { body: vec![function("f", vec![item])] };
    solve_types(&mut p).unwrap();
    match returned(&p.body[0].body[0]) {
        Expression::BinaryOp { left, expr_type, .. } => {
            assert!(matches!(expr_type, Type::Int32));
            assert!(matches!(left.get_type(), Type::Int32));
        },
        _ => panic!("expected a binary operation"),
    }
}

#[test]
fn scoped_programs_also_validate() {
    let src = "let x: i32 = 1;\nx = x + 1;\n{ let y: i32 = 2; let x: i32 = 3; y = x; return y; }";
    let p = block_program(src);
    assert!(validate_vars(&p).is_ok());
    let mut q = block_program(src);
    assert!(scope_vars(&mut q).is_ok());
    assert!(validate_vars(&q).is_ok());
}

fn type_label(t: &Type) -> String {
    t.to_text()
}

fn describe_expr(e: &Expression) -> String {
    match e {
        Expression::UnaryOp { operator, target, expr_type } => {
            format!("({} {}):{}", operator, describe_expr(target), type_label(expr_type))
        },
        Expression::BinaryOp { operator, left, right, expr_type } => {
            format!("({} {} {}):{}", describe_expr(left), operator, describe_expr(right), type_label(expr_type))
        },
        Expression::Var { name, expr_type } => format!("{}:{}", name, type_label(expr_type)),
        Expression::VarAssignment { name, value, expr_type } => {
            format!("({} = {}):{}", name, describe_expr(value), type_label(expr_type))
        },
        Expression::Int32Constant { value, expr_type } => format!("{}:{}", value, type_label(expr_type)),
        Expression::BlockExpression { .. } => "block".to_string(),
    }
}

fn describe_items(items: &[BlockItem]) -> String {
    let mut out = String::new();
    for item in items {
        match item {
            BlockItem::VarDeclaration(d) => {
                out.push_str(&format!("let {}", d.name));
                if let Some(e) = &d.init_value {
                    out.push_str(&format!(" = {}", describe_expr(e)));
                }
            },
            BlockItem::Statement(Statement::Expression { expression }) => out.push_str(&describe_expr(expression)),
            BlockItem::Statement(Statement::Return { value }) | BlockItem::Statement(Statement::Yield { value }) => {
                out.push_str("ret ");
                if let Some(e) = value {
                    out.push_str(&describe_expr(e));
                }
            },
            BlockItem::Statement(Statement::Block { items }) => out.push_str(&format!("{{{}}}", describe_items(items))),
        }
        out.push(';');
    }
    out
}

#[test]
fn inference_settles_after_one_run() {
    let mut p = block_program("let x: i32 = 1;\nx = x + 2 * x;\n{ let y: i32 = -x; return y - 1; }");
    solve_types(&mut p).unwrap();
    let once = describe_items(&p.body[0].body);
    assert_eq!(
        once,
        "let x = 1:i32;(x = (x:i32 + (2:i32 * x:i32):i32):i32):i32;{let y = (- x:i32):i32;ret (y:i32 - 1:i32):i32;};"
    );
    solve_types(&mut p).unwrap();
    assert_eq!(describe_items(&p.body[0].body), once);
}

fn block_expr(items: Vec<BlockItem>, expr_type: Type) -> Expression {
    Expression::BlockExpression { items, expr_type }
}

fn decl(name: &str, var_type: Type, init_value: Option<Expression>) -> BlockItem {
    BlockItem::VarDeclaration(VarDeclaration { name: name.to_string(), init_value, var_type })
}

#[test]
fn inference_settles_with_block_expressions() {
    let inner = vec![
        decl("y", Type::Int32, Some(int32(2))),
        BlockItem::Statement(Statement::Yield { value: Some(Box::new(Expression::Var { name: "y".to_string(), expr_type: Type::Unknown })) }),
    ];
    let assign = Expression::VarAssignment {
        name: "x".to_string(),
        value: Box::new(block_expr(inner, Type::Unknown)),
        expr_type: Type::Unknown,
    };
    let body = vec![
        decl("x", Type::Int32, None),
        BlockItem::Statement(Statement::Expression { expression: Box::new(assign) }),
        BlockItem::Statement(Statement::Return { value: Some(Box::new(Expression::Var { name: "y".to_string(), expr_type: Type::Unknown })) }),
    ];
    let mut p = Program { body: vec![function("main", body)] };
    solve_types(&mut p).unwrap();
    let once = describe_items(&p.body[0].body);
    solve_types(&mut p).unwrap();
    assert_eq!(describe_items(&p.body[0].body), once);
}

#[test]
fn inference_need_not_settle_with_an_unknown_declared_type() {
    // `y` is declared of unknown type inside an assigned block; once the assignment has its
    // type, a second run no longer looks into the block and `y` is not declared
    let inner = vec![decl("y", Type::Unknown, None), BlockItem::Statement(Statement::Yield { value: Some(Box::new(int32(1))) })];
    let assign = Expression::VarAssignment {
        name: "x".to_string(),
        value: Box::new(block_expr(inner, Type::Int32)),
        expr_type: Type::Unknown,
    };
    let body = vec![
        decl("x", Type::Int32, None),
        BlockItem::Statement(Statement::Expression { expression: Box::new(assign) }),
        BlockItem::Statement(Statement::Return { value: Some(Box::new(Expression::Var { name: "y".to_string(), expr_type: Type::Unknown })) }),
    ];
    let mut p = Program { body: vec![function("main", body)] };
    solve_types(&mut p).unwrap();
    match solve_types(&mut p) {
        Err(SolveError::UnknownIdentifier(name)) => assert_eq!(name, "y"),
        _ => panic!("expected the second run to fail"),
    }
}
