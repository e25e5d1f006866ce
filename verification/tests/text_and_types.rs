use minic::assembly::{create_tacky, render_asm};
use minic::lexing::tokenize;
use minic::parsing::{parse, BlockItem, Expression, Statement};
use minic::text::{push_decimal, push_signed_decimal, str_eq};
use minic::typing::Type;

fn source_lines(src: &str) -> Vec<String> {
    src.split_inclusive('\n').map(|l| l.to_string()).collect()
}

#[test]
fn string_equality() {
    assert!(str_eq("abc", "abc"));
    assert!(!str_eq("abc", "abd"));
    assert!(!str_eq("ab", "abc"));
    assert!(str_eq("", ""));
}

#[test]
fn decimal_numerals() {
    let mut s = String::from("n=");
    push_decimal(&mut s, 0);
    assert_eq!(s, "n=0");
    let mut s = String::new();
    push_decimal(&mut s, 1234567890);
    assert_eq!(s, "1234567890");
    let mut s = String::new();
    push_decimal(&mut s, u64::MAX);
    assert_eq!(s, u64::MAX.to_string());
}

#[test]
fn signed_decimal_numerals() {
    let mut s = String::new();
    push_signed_decimal(&mut s, -42);
    assert_eq!(s, "-42");
    let mut s = String::new();
    push_signed_decimal(&mut s, 42);
    assert_eq!(s, "42");
    let mut s = String::new();
    push_signed_decimal(&mut s, i64::MIN + 1);
    assert_eq!(s, (i64::MIN + 1).to_string());
}

#[test]
fn constants_read_back_as_printed() {
    for v in [0i32, 7, 10, 99, 100, 65535, 2147483647] {
        let src = format!("func main() -> i32 {{ return {}; }}\n", v);
        let p = parse(tokenize(&source_lines(&src)).unwrap()).unwrap();
        match &p.body[0].body[0] {
            BlockItem::Statement(Statement::Return { value: Some(e) }) => match &**e {
                Expression::Int32Constant { value, .. } => assert_eq!(*value, v),
                _ => panic!("expected a constant"),
            },
            _ => panic!("expected a return"),
        }
        let text = render_asm(&create_tacky(p).unwrap()).unwrap();
        assert!(text.contains(&format!("\tmovl ${}, %eax\n", v)));
    }
}

#[test]
fn type_sizes() {
    assert_eq!(Type::Int32.get_size(), 4);
    assert_eq!(Type::Unknown.get_size(), 0);
    assert_eq!(Type::Any.get_size(), 0);
    let f = Type::FuncType { return_type: Box::new(Type::Int32), param_types: vec![Box::new(Type::Any)] };
    assert_eq!(f.get_size(), 4);
}

#[test]
fn type_conversions() {
    assert!(Type::Int32.is_convertable_to(&Type::Int32));
    assert!(!Type::Int32.is_convertable_to(&Type::Any));
    assert!(!Type::Int32.is_convertable_to(&Type::Unknown));
    assert!(Type::Any.is_convertable_to(&Type::Int32));
    assert!(Type::Any.is_convertable_to(&Type::Unknown));
}

#[test]
fn type_copy_keeps_structure() {
    let f = Type::FuncType {
        return_type: Box::new(Type::Int32),
        param_types: vec![Box::new(Type::Any), Box::new(Type::Int32)],
    };
    match f.duplicate() {
        Type::FuncType { return_type, param_types } => {
            assert!(matches!(*return_type, Type::Int32));
            assert_eq!(param_types.len(), 2);
            assert!(matches!(*param_types[0], Type::Any));
            assert!(matches!(*param_types[1], Type::Int32));
        },
        _ => panic!("expected a function type"),
    }
}

#[test]
fn type_texts() {
    assert_eq!(Type::Int32.to_text(), "i32");
    assert_eq!(Type::Unknown.to_text(), "unknown");
    assert_eq!(Type::Any.to_text(), "any");
    let none = Type::FuncType { return_type: Box::new(Type::Int32), param_types: Vec::new() };
    assert_eq!(none.to_text(), "fn() -> i32");
    let two = Type::FuncType {
        return_type: Box::new(none.duplicate()),
        param_types: vec![Box::new(Type::Any), Box::new(Type::Int32)],
    };
    assert_eq!(two.to_text(), "fn(any, i32) -> fn() -> i32");
}
