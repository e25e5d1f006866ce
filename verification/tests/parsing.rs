use minic::lexing::tokenize;
use minic::parsing::{parse, BlockItem, Expression, ParseError, Program, Statement};
use minic::typing::Type;

fn source_lines(src: &str) -> Vec<String> {
    src.split_inclusive('\n').map(|l| l.to_string()).collect()
}

fn parse_src(src: &str) -> Result<Program, ParseError> {
    parse(tokenize(&source_lines(src)).unwrap())
}

fn main_body(src: &str) -> Vec<BlockItem> {
    let p = parse_src(&format!("func main() -> i32 {{\n{}\n}}\n", src)).unwrap();
    assert_eq!(p.body.len(), 1);
    p.body.into_iter().next().unwrap().body
}

fn body_error(src: &str) -> ParseError {
    match parse_src(&format!("func main() -> i32 {{\n{}\n}}\n", src)) {
        Err(e) => e,
        Ok(_) => panic!("expected a parse error"),
    }
}

fn returned(item: &BlockItem) -> &Expression {
    match item {
        BlockItem::Statement(Statement::Return { value: Some(v) }) => v,
        _ => panic!("expected a return with a value"),
    }
}

fn constant(e: &Expression) -> i32 {
    match e {
        Expression::Int32Constant { value, .. } => *value,
        _ => panic!("expected a constant"),
    }
}

fn binary(e: &Expression) -> (&str, &Expression, &Expression) {
    match e {
        Expression::BinaryOp { operator, left, right, .. } => (operator.as_str(), left, right),
        _ => panic!("expected a binary operation"),
    }
}

fn var_name(e: &Expression) -> &str {
    match e {
        Expression::Var { name, .. } => name.as_str(),
        _ => panic!("expected a variable"),
    }
}

#[test]
fn parses_minimal_function() {
    let p = parse_src("func main() -> i32 { return 2; }\n").unwrap();
    assert_eq!(p.body.len(), 1);
    let f = &p.body[0];
    assert_eq!(f.name, "main");
    match &f.func_type {
        Type::FuncType { return_type, param_types } => {
            assert!(matches!(**return_type, Type::Int32));
            assert!(param_types.is_empty());
        },
        _ => panic!("expected a function type"),
    }
    assert_eq!(f.body.len(), 1);
    assert_eq!(constant(returned(&f.body[0])), 2);
    assert!(matches!(returned(&f.body[0]).get_type(), Type::Unknown));
}

#[test]
fn parses_two_functions_in_order() {
    let p = parse_src("func a() -> i32 { return 1; }\nfunc b() -> i32 { return 2; }\n").unwrap();
    assert_eq!(p.body.len(), 2);
    assert_eq!(p.body[0].name, "a");
    assert_eq!(p.body[1].name, "b");
}

#[test]
fn empty_source_is_empty_program() {
    assert_eq!(parse(Vec::new()).unwrap().body.len(), 0);
}

#[test]
fn multiplication_binds_tighter_than_addition() {
    let body = main_body("return 1 + 2 * 3;");
    let (op, l, r) = binary(returned(&body[0]));
    assert_eq!(op, "+");
    assert_eq!(constant(l), 1);
    let (op2, l2, r2) = binary(r);
    assert_eq!(op2, "*");
    assert_eq!(constant(l2), 2);
    assert_eq!(constant(r2), 3);
}

#[test]
fn subtraction_is_left_associative() {
    let body = main_body("return 1 - 2 - 3;");
    let (op, l, r) = binary(returned(&body[0]));
    assert_eq!(op, "-");
    assert_eq!(constant(r), 3);
    let (op2, l2, r2) = binary(l);
    assert_eq!(op2, "-");
    assert_eq!(constant(l2), 1);
    assert_eq!(constant(r2), 2);
}

#[test]
fn parentheses_group() {
    let body = main_body("return (1 + 2) * 3;");
    let (op, l, r) = binary(returned(&body[0]));
    assert_eq!(op, "*");
    assert_eq!(constant(r), 3);
    assert_eq!(binary(l).0, "+");
}

#[test]
fn unary_operator_and_negative_literal() {
    let body = main_body("return -5;");
    match returned(&body[0]) {
        Expression::UnaryOp { operator, target, .. } => {
            assert_eq!(operator, "-");
            assert_eq!(constant(target), 5);
        },
        _ => panic!("expected a unary operation"),
    }
}

#[test]
fn declarations_with_and_without_value() {
    let body = main_body("let x: i32 = 3;\nlet y: i32;\nreturn x;");
    assert_eq!(body.len(), 3);
    match &body[0] {
        BlockItem::VarDeclaration(d) => {
            assert_eq!(d.name, "x");
            assert_eq!(constant(d.init_value.as_ref().unwrap()), 3);
            assert!(matches!(d.var_type, Type::Int32));
        },
        _ => panic!("expected a declaration"),
    }
    match &body[1] {
        BlockItem::VarDeclaration(d) => {
            assert_eq!(d.name, "y");
            assert!(d.init_value.is_none());
        },
        _ => panic!("expected a declaration"),
    }
    assert_eq!(var_name(returned(&body[2])), "x");
}

#[test]
fn assignment_and_compound_assignment() {
    let body = main_body("let x: i32;\nx = 5;\nx += 1;\nreturn x;");
    match &body[1] {
        BlockItem::Statement(Statement::Expression { expression }) => match &**expression {
            Expression::VarAssignment { name, value, .. } => {
                assert_eq!(name, "x");
                assert_eq!(constant(value), 5);
            },
            _ => panic!("expected an assignment"),
        },
        _ => panic!("expected an expression statement"),
    }
    // `x += 1` assigns `1 + x`
    match &body[2] {
        BlockItem::Statement(Statement::Expression { expression }) => match &**expression {
            Expression::VarAssignment { name, value, .. } => {
                assert_eq!(name, "x");
                let (op, l, r) = binary(value);
                assert_eq!(op, "+");
                assert_eq!(constant(l), 1);
                assert_eq!(var_name(r), "x");
            },
            _ => panic!("expected an assignment"),
        },
        _ => panic!("expected an expression statement"),
    }
}

#[test]
fn chained_assignment_is_rejected() {
    // after `a = b` the next `=` finds an assignment, not a variable, on its left
    assert_eq!(body_error("let a: i32;\nlet b: i32;\na = b = 4;"), ParseError::InvalidAssignmentTarget);
}

#[test]
fn block_statement_leaves_its_brace_for_the_body() {
    // the closing brace of a block also closes the function body
    let p = parse_src("func main() -> i32 {\n{ return 1; }\n").unwrap();
    assert_eq!(p.body.len(), 1);
    match &p.body[0].body[0] {
        BlockItem::Statement(Statement::Block { items }) => {
            assert_eq!(items.len(), 1);
            assert_eq!(constant(returned(&items[0])), 1);
        },
        _ => panic!("expected a block"),
    }
    assert_eq!(parse_src("func main() -> i32 {\n{ return 1; }\n}\n").err(), Some(ParseError::UnexpectedTokens));
}

#[test]
fn extreme_literals() {
    assert_eq!(constant(returned(&main_body("return 2147483647;")[0])), 2147483647);
    assert_eq!(body_error("return 2147483648;"), ParseError::InvalidIntLiteral);
}

#[test]
fn error_unexpected_tokens() {
    assert_eq!(parse_src("return 1;\n").err(), Some(ParseError::UnexpectedTokens));
}

#[test]
fn error_expected_return_type() {
    assert_eq!(parse_src("func main() { return 1; }\n").err(), Some(ParseError::ExpectedReturnType));
}

#[test]
fn error_missing_i32_after_arrow() {
    assert_eq!(parse_src("func main() -> { return 1; }\n").err(), Some(ParseError::UnexpectedEndOfFile));
}

#[test]
fn error_expected_block() {
    assert_eq!(parse_src("func main() -> i32 return 1;\n").err(), Some(ParseError::ExpectedBlock));
}

#[test]
fn error_unclosed_function_body() {
    assert_eq!(parse_src("func main() -> i32 { return 1;\n").err(), Some(ParseError::UnclosedFunctionBody));
}

#[test]
fn error_unclosed_block() {
    assert_eq!(parse_src("func main() -> i32 { { return 1;\n").err(), Some(ParseError::UnclosedBlock));
}

#[test]
fn error_unexpected_token_sequence() {
    assert_eq!(body_error(";"), ParseError::UnexpectedTokenSequence);
}

#[test]
fn error_expected_semicolon() {
    assert_eq!(body_error("return 1"), ParseError::ExpectedSemicolon);
    assert_eq!(body_error("let x: i32 = 1"), ParseError::ExpectedSemicolon);
}

#[test]
fn error_expected_expression() {
    assert_eq!(body_error("return ;"), ParseError::ExpectedExpression);
    assert_eq!(body_error("return 1 + ;"), ParseError::ExpectedExpression);
}

#[test]
fn error_expected_factor() {
    assert_eq!(body_error("return - ;"), ParseError::ExpectedFactor);
}

#[test]
fn error_expected_closing_paren() {
    assert_eq!(body_error("return (1 + 2;"), ParseError::ExpectedClosingParen);
}

#[test]
fn error_invalid_assignment_target() {
    assert_eq!(body_error("1 = 2;"), ParseError::InvalidAssignmentTarget);
}

#[test]
fn error_unknown_precedence() {
    assert_eq!(body_error("return 1 -> 2;"), ParseError::UnknownPrecedence);
}

#[test]
fn error_expected_identifier() {
    assert_eq!(body_error("let 5: i32;"), ParseError::ExpectedIdentifier);
}

#[test]
fn error_expected_type_annotation() {
    assert_eq!(body_error("let x = 1;"), ParseError::ExpectedTypeAnnotation);
}

#[test]
fn increment_operator_is_left_unconsumed() {
    assert_eq!(body_error("let x: i32;\nx++;"), ParseError::ExpectedSemicolon);
}

#[test]
fn expression_type_set_and_get() {
    let body = main_body("return 1;");
    let e = returned(&body[0]).duplicate();
    assert!(matches!(e.get_type(), Type::Unknown));
    let e = e.set_type(Type::Int32);
    assert!(matches!(e.get_type(), Type::Int32));
    assert!(matches!(e.get_type_ref(), Type::Int32));
    assert_eq!(constant(&e), 1);
    let e = e.set_type(Type::Any);
    assert!(matches!(e.get_type(), Type::Any));
}
