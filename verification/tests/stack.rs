use minic::lexing::tokenize;
use minic::parsing::{parse, Function};
use minic::stack::{create_stack_frame, StackFrame};

fn source_lines(src: &str) -> Vec<String> {
    src.split_inclusive('\n').map(|l| l.to_string()).collect()
}

fn main_function(body: &str) -> Function {
    let src = format!("func main() -> i32 {{\n{}\n}}\n", body);
    let p = parse(tokenize(&source_lines(&src)).unwrap()).unwrap();
    p.body.into_iter().next().unwrap()
}

fn frame(body: &str) -> StackFrame {
    create_stack_frame(&main_function(body)).unwrap()
}

#[test]
fn empty_body_has_empty_frame() {
    let f = frame("return 0;");
    assert_eq!(f.size(), 0);
    assert!(!f.has_free(4));
    assert!(!f.has_free_list(4));
}

#[test]
fn variable_slot_is_free_again_after_the_body() {
    let f = frame("let x: i32 = 1;\nreturn x;");
    assert_eq!(f.size(), 4);
    assert!(f.has_free(4));
    assert!(!f.has_free(8));
    assert!(!f.has_var(&"x".to_string()));
}

#[test]
fn two_variables_take_two_slots() {
    let f = frame("let x: i32 = 1;\nlet y: i32 = 2;\nreturn x;");
    assert_eq!(f.size(), 8);
}

#[test]
fn binary_operation_keeps_its_temporary() {
    // the temporary of a binary operation is laid out and never returned
    let f = frame("return 1 + 2;");
    assert_eq!(f.size(), 4);
    assert!(f.has_free_list(4));
    assert!(!f.has_free(4));
}

#[test]
fn reserve_then_free_gives_the_slot_back() {
    let mut f = frame("let x: i32 = 1;\nreturn x;");
    let a = f.reserve(4);
    assert_eq!(a.offset(), 0);
    assert_eq!(a.size(), 4);
    assert!(!f.has_free(4));
    assert!(!f.is_free_slot(&a));
    f.free(a);
    assert!(f.has_free(4));
    assert!(f.is_free_slot(&a));
    let b = f.reserve(4);
    assert_eq!(b.offset(), 0);
    assert_eq!(f.size(), 4);
}

#[test]
fn allocate_adds_a_slot_at_the_end() {
    let mut f = frame("let x: i32 = 1;\nreturn x;");
    f.allocate(8);
    assert_eq!(f.size(), 12);
    assert!(f.has_free(8));
    let a = f.reserve(8);
    assert_eq!(a.offset(), 4);
    assert_eq!(a.size(), 8);
    assert!(!f.has_free(8));
}

#[test]
fn alloc_if_missing_only_when_missing() {
    let mut f = frame("let x: i32 = 1;\nreturn x;");
    f.alloc_if_missing(4);
    assert_eq!(f.size(), 4);
    f.alloc_if_missing(2);
    assert_eq!(f.size(), 6);
    assert!(f.has_free(2));
}

#[test]
fn variables_bind_and_unbind() {
    let mut f = frame("let x: i32 = 1;\nreturn x;");
    let name = "a".to_string();
    let a = f.reserve_var(name.clone(), 4);
    assert_eq!(a.offset(), 4);
    assert_eq!(a.size(), 4);
    assert_eq!(f.size(), 8);
    assert!(f.has_var(&name));
    assert_eq!(f.get_var(&name).offset(), 4);
    f.free_var(&name);
    assert!(!f.has_var(&name));
    // the freed slot is handed out first
    let b = f.reserve(4);
    assert_eq!(b.offset(), 4);
    assert_eq!(f.size(), 8);
}

#[test]
fn other_variables_keep_their_slots() {
    let mut f = frame("let x: i32 = 1;\nreturn x;");
    let a = "a".to_string();
    let b = "b".to_string();
    f.reserve_var(a.clone(), 4);
    f.reserve_var(b.clone(), 4);
    assert_eq!(f.get_var(&a).offset(), 4);
    assert_eq!(f.get_var(&b).offset(), 8);
    f.free_var(&b);
    assert_eq!(f.get_var(&a).offset(), 4);
}

#[test]
fn narrow_view_of_a_slot() {
    let mut f = frame("let x: i32 = 1;\nreturn x;");
    let a = f.reserve_var("a".to_string(), 4);
    assert!(!a.is_view());
    let v = a.get_n_byte_view(1);
    assert_eq!(v.offset(), 7);
    assert_eq!(v.size(), 1);
    assert!(v.is_view());
    // a slot and its view are the same slot only when they start together
    assert!(a != v);
    assert!(a == a.get_n_byte_view(4));
}

#[test]
fn frame_size_changes_only_on_allocation() {
    let mut f = frame("let x: i32 = 1;\nreturn x;");
    let before = f.size();
    let a = f.reserve(4);
    assert_eq!(f.size(), before);
    f.free(a);
    assert_eq!(f.size(), before);
    f.alloc_if_missing(4);
    assert_eq!(f.size(), before);
    f.reserve_var("v".to_string(), 4);
    assert_eq!(f.size(), before + 4);
    f.free_var(&"v".to_string());
    assert_eq!(f.size(), before + 4);
    f.allocate(2);
    assert_eq!(f.size(), before + 6);
}

#[test]
fn a_binding_lasts_until_its_variable_is_freed() {
    let mut f = frame("let x: i32 = 1;\nreturn x;");
    let name = "a".to_string();
    let a = f.reserve_var(name.clone(), 4);
    let t = f.reserve(4);
    f.free(t);
    f.allocate(8);
    f.alloc_if_missing(2);
    let other = "b".to_string();
    f.reserve_var(other.clone(), 4);
    f.free_var(&other);
    assert_eq!(f.get_var(&name).offset(), a.offset());
    assert_eq!(f.get_var(&name).size(), a.size());
    f.free_var(&name);
    assert!(!f.has_var(&name));
}
