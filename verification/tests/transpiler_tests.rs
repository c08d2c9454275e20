use transpiler::parser::ParseError;
use transpiler::token::TokenKind;
use transpiler::transpile;

#[test]
fn it_handles_empty_code() {
    let input_code = "";

    let output_code = "";

    assert_eq!(output_code, transpile(input_code).unwrap());
}

#[test]
fn it_handles_empty_functions() {
    let input_code = "def a() end";

    let output_code = "function a() { }";

    assert_eq!(output_code, transpile(input_code).unwrap());
}

#[test]
fn it_transpiles() {
    let input_code = "def f(x, y, z) g(name, 2) end";

    let output_code = "function f(x, y, z) { return g(name, 2) }";

    assert_eq!(output_code, transpile(input_code).unwrap());
}

#[test]
fn it_handles_function_that_returns_a_constant_number() {
    let input_code = "def f() 1 end";

    let output_code = "function f() { return 1 }";

    assert_eq!(output_code, transpile(input_code).unwrap());
}

#[test]
fn repeated_calls_agree() {
    let input_code = "def f(x, y, z) g(name, 2) end";

    let first = transpile(input_code).unwrap();
    let second = transpile(input_code).unwrap();

    assert_eq!(first, second);
}

#[test]
fn one_parameter() {
    assert_eq!("function f(x) { }", transpile("def f(x) end").unwrap());
}

#[test]
fn single_variable_body() {
    assert_eq!("function f(x) { return x }", transpile("def f(x) x end").unwrap());
}

#[test]
fn nested_calls_keep_their_depth() {
    let out = transpile("def f(x) g(h(k(x, 1)), 2) end").unwrap();
    assert_eq!("function f(x) { return g(h(k(x, 1)), 2) }", out);

    // the parenthesis nesting depth after the parameter list matches the
    // call nesting depth of the body expression
    let body = &out["function f(x) ".len()..];
    let mut depth: i32 = 0;
    let mut max_depth: i32 = 0;
    for c in body.chars() {
        if c == '(' {
            depth += 1;
        }
        if c == ')' {
            depth -= 1;
        }
        if depth > max_depth {
            max_depth = depth;
        }
    }
    assert_eq!(0, depth);
    assert_eq!(3, max_depth);
}

#[test]
fn unmatched_characters_are_skipped() {
    // `@` matches no token pattern: it is dropped silently
    assert_eq!("function f(x) { return x }", transpile("def f(x) @x end").unwrap());
    assert_eq!("function f(x) { return g(x, 1) }", transpile("def f(x) g(x, @1) end").unwrap());
}

#[test]
fn whitespace_is_skipped() {
    assert_eq!("function f(x) { return x }", transpile("  def   f ( x )\n x\t end  ").unwrap());
}

#[test]
fn missing_end_aborts() {
    assert_eq!(
        Err(ParseError::UnexpectedEnd { expected: TokenKind::End }),
        transpile("def a() x")
    );
    // with no body expression either, the abort comes at the expression
    assert_eq!(
        Err(ParseError::UnexpectedEnd { expected: TokenKind::Identifier }),
        transpile("def a()")
    );
}

#[test]
fn trailing_comma_aborts() {
    assert_eq!(
        Err(ParseError::UnexpectedToken {
            expected: TokenKind::Identifier,
            found: TokenKind::Cparam,
        }),
        transpile("def f(x,) end")
    );
}

#[test]
fn keyword_in_place_of_identifier_aborts() {
    assert_eq!(
        Err(ParseError::UnexpectedToken { expected: TokenKind::Identifier, found: TokenKind::Def }),
        transpile("def def() end")
    );
}

#[test]
fn unterminated_parameter_list_aborts() {
    assert_eq!(
        Err(ParseError::UnexpectedEnd { expected: TokenKind::Identifier }),
        transpile("def f(")
    );
}

#[test]
fn integer_too_large_aborts() {
    assert_eq!(Err(ParseError::IntegerOutOfRange), transpile("def f() 2147483648 end"));
    assert_eq!(
        "function f() { return 2147483647 }",
        transpile("def f() 2147483647 end").unwrap()
    );
}

#[test]
fn leading_zeros_are_read_in_decimal() {
    assert_eq!("function f() { return 7 }", transpile("def f() 007 end").unwrap());
}

#[test]
fn keyword_prefix_is_an_identifier() {
    // `deff` and `endx` are identifiers, not keywords
    assert_eq!(
        "function deff(endx) { return endx }",
        transpile("def deff(endx) endx end").unwrap()
    );
}
