use minic::lexing::{token_at_match, tokenize, tokenize_line, LexError, Token};

/// The lines of `src` as a line reader hands them out, each with its line break.
fn source_lines(src: &str) -> Vec<String> {
    src.split_inclusive('\n').map(|l| l.to_string()).collect()
}

fn ident(s: &str) -> Token {
    Token::Identifier(s.to_string())
}

fn kw(s: &str) -> Token {
    Token::Keyword(s.to_string())
}

fn sep(s: &str) -> Token {
    Token::Separator(s.to_string())
}

fn op(s: &str) -> Token {
    Token::Operator(s.to_string())
}

fn int_lit(s: &str) -> Token {
    Token::Int32Literal(s.to_string())
}

#[test]
fn declaration_line_tokens() {
    let ts = tokenize_line("let x: i32 = 42;").unwrap();
    assert_eq!(ts, vec![kw("let"), ident("x"), op(":"), kw("i32"), op("="), int_lit("42"), sep(";")]);
}

#[test]
fn function_header_tokens() {
    let ts = tokenize_line("func main() -> i32 {").unwrap();
    assert_eq!(ts, vec![ident("func"), ident("main"), sep("("), sep(")"), op("->"), kw("i32"), sep("{")]);
}

#[test]
fn two_character_operators_win_over_one() {
    let ts = tokenize_line("a+=b==c!=d<=e>=f&&g||h").unwrap();
    assert_eq!(
        ts,
        vec![
            ident("a"), op("+="), ident("b"), op("=="), ident("c"), op("!="), ident("d"), op("<="),
            ident("e"), op(">="), ident("f"), op("&&"), ident("g"), op("||"), ident("h"),
        ]
    );
}

#[test]
fn increment_after_identifier() {
    let ts = tokenize_line("x++;").unwrap();
    assert_eq!(ts, vec![ident("x"), op("++"), sep(";")]);
}

#[test]
fn keyword_prefix_is_split_off() {
    // keywords are tried before identifiers, with no word boundary
    let ts = tokenize_line("double").unwrap();
    assert_eq!(ts, vec![kw("do"), ident("uble")]);
}

#[test]
fn whitespace_only_line_has_no_tokens() {
    assert_eq!(tokenize_line("  \t \n").unwrap(), Vec::<Token>::new());
    assert_eq!(tokenize_line("").unwrap(), Vec::<Token>::new());
}

#[test]
fn unrecognized_character_is_an_error() {
    assert_eq!(tokenize_line("x = #;"), Err(LexError::UnrecognizedToken));
    assert_eq!(tokenize_line("@"), Err(LexError::UnrecognizedToken));
}

#[test]
fn tokenize_joins_lines_in_order() {
    let lines = source_lines("func main() -> i32 {\n    return 7;\n}\n");
    let ts = tokenize(&lines).unwrap();
    assert_eq!(
        ts,
        vec![
            ident("func"), ident("main"), sep("("), sep(")"), op("->"), kw("i32"), sep("{"),
            kw("return"), int_lit("7"), sep(";"), sep("}"),
        ]
    );
}

#[test]
fn tokenize_rejects_non_ascii_line() {
    let lines = source_lines("let x: i32;\nlet é: i32;\n");
    assert_eq!(tokenize(&lines), Err(LexError::NonAscii));
}

#[test]
fn tokenize_reports_first_bad_line() {
    let lines = source_lines("x = #;\nlet é: i32;\n");
    assert_eq!(tokenize(&lines), Err(LexError::UnrecognizedToken));
}

#[test]
fn tokenize_of_no_lines_is_empty() {
    assert_eq!(tokenize(&Vec::new()).unwrap(), Vec::<Token>::new());
}

#[test]
fn tokenize_append_law_on_example() {
    let a = source_lines("let a: i32 = 1;\n");
    let b = source_lines("a += 2;\nreturn a;\n");
    let mut ab = a.clone();
    ab.extend(b.clone());
    let mut expected = tokenize(&a).unwrap();
    expected.extend(tokenize(&b).unwrap());
    assert_eq!(tokenize(&ab).unwrap(), expected);
}

#[test]
fn token_accessors() {
    let t = Token::create(3, "+=".to_string());
    assert_eq!(t, op("+="));
    assert_eq!(t.id(), 3);
    assert_eq!(t.content(), "+=");
    assert_eq!(Token::create(0, "12".to_string()), int_lit("12"));
    assert_eq!(Token::create(1, "let".to_string()).id(), 1);
    assert_eq!(Token::create(2, ";".to_string()).content(), ";");
    assert_eq!(Token::create(4, "x".to_string()).id(), 4);
    assert_eq!(ident("abc").duplicate(), ident("abc"));
}

#[test]
fn token_from_a_match() {
    assert_eq!(token_at_match("  abc  def", 4, 0, 5), (ident("abc"), 5));
    assert_eq!(token_at_match("42;", 0, 0, 2), (int_lit("42"), 2));
    assert_eq!(token_at_match("x += 1", 3, 2, 4), (op("+="), 2));
    assert_eq!(token_at_match(" \t", 2, 0, 2), (sep(""), 2));
}
