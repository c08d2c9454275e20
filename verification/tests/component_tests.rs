use transpiler::generator::generate;
use transpiler::node::{CallNode, DefNode, IntNode, Node, RootNode, VarRefNode};
use transpiler::parser::{consume, parse, parse_def, ParseError};
use transpiler::token::{Token, TokenKind};
use transpiler::token_kinds;
use transpiler::tokenizer::tokenize;

fn tokens_of(code: &str) -> Vec<Token> {
    let kinds = token_kinds();
    let mut tokens: Vec<Token> = Vec::new();
    tokenize(code, &mut tokens, &kinds);
    tokens
}

#[test]
fn tokenizer_splits_and_skips() {
    let tokens = tokens_of("def f(x, 12) end +");
    let expected = vec![
        (TokenKind::Def, "def"),
        (TokenKind::Identifier, "f"),
        (TokenKind::Oparam, "("),
        (TokenKind::Identifier, "x"),
        (TokenKind::Comma, ","),
        (TokenKind::Integer, "12"),
        (TokenKind::Cparam, ")"),
        (TokenKind::End, "end"),
    ];
    assert_eq!(expected.len(), tokens.len());
    for (i, (kind, text)) in expected.iter().enumerate() {
        assert_eq!(*kind, tokens[i].kind);
        assert_eq!(*text, tokens[i].text);
    }
}

#[test]
fn tokenizer_respects_word_boundaries() {
    // a digit right after letters blocks the identifier match, so the
    // letters are skipped one by one and only the digits form a token
    let tokens = tokens_of("abc1");
    assert_eq!(1, tokens.len());
    assert_eq!(TokenKind::Integer, tokens[0].kind);
    assert_eq!("1", tokens[0].text);

    // an underscore is a word character and blocks both runs
    let tokens = tokens_of("ab_");
    assert_eq!(0, tokens.len());
}

#[test]
fn tokenizer_emits_nothing_for_operators() {
    let tokens = tokens_of("+ - * / % = !");
    assert_eq!(0, tokens.len());
}

#[test]
fn consume_takes_matching_front_token() {
    let tokens = tokens_of("def f");
    let (t, p) = consume(&tokens, 0, TokenKind::Def).unwrap();
    assert_eq!("def", t.text);
    assert_eq!(1, p);
    assert_eq!(
        Err(ParseError::UnexpectedToken {
            expected: TokenKind::End,
            found: TokenKind::Identifier,
        }),
        consume(&tokens, 1, TokenKind::End).map(|(t, p)| (t.text.clone(), p))
    );
    assert_eq!(
        Err(ParseError::UnexpectedEnd { expected: TokenKind::End }),
        consume(&tokens, 2, TokenKind::End).map(|(t, p)| (t.text.clone(), p))
    );
}

#[test]
fn parse_builds_the_expected_tree() {
    let tokens = tokens_of("def f(x, y) g(x, 2) end");
    let ast = parse(&tokens).unwrap();
    match ast {
        Node::Root(root) => {
            assert_eq!(1, root.body.len());
            match &root.body[0] {
                Node::Def(def) => {
                    assert_eq!("f", def.name);
                    assert_eq!(vec!["x".to_string(), "y".to_string()], def.arg_names);
                    assert_eq!(1, def.body.len());
                    match &def.body[0] {
                        Node::Call(call) => {
                            assert_eq!("g", call.name);
                            assert_eq!(2, call.arg_expr.len());
                            assert!(matches!(&call.arg_expr[0], Node::VarRef(v) if v.name == "x"));
                            assert!(matches!(&call.arg_expr[1], Node::Int(i) if i.value == 2));
                        },
                        other => panic!("expected a call, got {:?}", other),
                    }
                },
                other => panic!("expected a definition, got {:?}", other),
            }
        },
        other => panic!("expected a root, got {:?}", other),
    }
}

#[test]
fn parse_of_empty_tokens_is_an_empty_root() {
    let tokens = tokens_of("");
    let ast = parse(&tokens).unwrap();
    assert!(matches!(&ast, Node::Root(root) if root.body.is_empty()));
    assert_eq!("", generate(&ast));
}

#[test]
fn parse_def_reports_position_after_end() {
    let tokens = tokens_of("def a() end");
    let (_, p) = parse_def(&tokens, 0).unwrap();
    assert_eq!(tokens.len(), p);
}

#[test]
fn generate_handles_negative_integers() {
    assert_eq!("-5", generate(&Node::Int(IntNode { value: -5 })));
    assert_eq!("-2147483648", generate(&Node::Int(IntNode { value: i32::MIN })));
    assert_eq!("0", generate(&Node::Int(IntNode { value: 0 })));
}

#[test]
fn generate_var_ref_is_verbatim() {
    assert_eq!("total", generate(&Node::VarRef(VarRefNode { name: "total".to_string() })));
}

#[test]
fn generate_promotes_only_the_last_statement() {
    // the generator generalizes to several statements: only the final one
    // becomes a return statement
    let def = DefNode {
        name: "f".to_string(),
        arg_names: vec![],
        body: vec![
            Node::VarRef(VarRefNode { name: "x".to_string() }),
            Node::Int(IntNode { value: 1 }),
        ],
    };
    assert_eq!("function f() { x;return 1 }", generate(&Node::Def(def)));
}

#[test]
fn generate_joins_root_bodies_with_newlines() {
    let root = RootNode {
        body: vec![
            Node::VarRef(VarRefNode { name: "a".to_string() }),
            Node::VarRef(VarRefNode { name: "b".to_string() }),
        ],
    };
    assert_eq!("a\nb", generate(&Node::Root(root)));
}

#[test]
fn generate_call_with_no_arguments() {
    let call = CallNode { name: "g".to_string(), arg_expr: vec![] };
    assert_eq!("g()", generate(&Node::Call(call)));
}

#[test]
fn kind_names_match_the_registry() {
    assert_eq!("def", TokenKind::Def.name());
    assert_eq!("end", TokenKind::End.name());
    assert_eq!("identifier", TokenKind::Identifier.name());
    assert_eq!("integer", TokenKind::Integer.name());
    assert_eq!("oparam", TokenKind::Oparam.name());
    assert_eq!("cparam", TokenKind::Cparam.name());
    assert_eq!("comma", TokenKind::Comma.name());
}

#[test]
fn error_messages_name_expected_and_found() {
    assert_eq!(
        "expected identifier, found def",
        ParseError::UnexpectedToken { expected: TokenKind::Identifier, found: TokenKind::Def }
            .message()
    );
    assert_eq!(
        "expected end, found end of input",
        ParseError::UnexpectedEnd { expected: TokenKind::End }.message()
    );
    assert_eq!("integer literal out of range", ParseError::IntegerOutOfRange.message());
}

#[test]
fn token_new_carries_kind_and_text() {
    let t = Token::new(TokenKind::Identifier, "abc".to_string());
    assert_eq!(TokenKind::Identifier, t.kind);
    assert_eq!("abc", t.text);
}
