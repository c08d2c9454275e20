use vstd::prelude::*;

pub mod generator;
pub mod node;
pub mod parser;
pub mod token;
pub mod tokenizer;

use generator::{generate, spec_gen};
use parser::{parse, spec_parse, ParseError};
use token::{views_of, Token, TokenKind};
use tokenizer::{spec_tokenize, tokenize};

verus! {

/// The priority-ordered registry of the grammar's token kinds. The keyword
/// kinds stand before the identifier kind, so reserved words win over the
/// identifier pattern.
pub open spec fn spec_token_kinds() -> Seq<TokenKind> {
    seq![
        TokenKind::Def,
        TokenKind::End,
        TokenKind::Identifier,
        TokenKind::Integer,
        TokenKind::Oparam,
        TokenKind::Cparam,
        TokenKind::Comma,
    ]
}

/// Builds the registry of token kinds, in priority order.
pub fn token_kinds() -> (r: Vec<TokenKind>)
    ensures
        r@ == spec_token_kinds(),
{
    let mut v: Vec<TokenKind> = Vec::new();
    v.push(TokenKind::Def);
    v.push(TokenKind::End);
    v.push(TokenKind::Identifier);
    v.push(TokenKind::Integer);
    v.push(TokenKind::Oparam);
    v.push(TokenKind::Cparam);
    v.push(TokenKind::Comma);
    proof {
        assert(v@ =~= spec_token_kinds());
    }
    v
}

/// The whole pipeline on a source text: tokenize, parse, generate — or the
/// error that aborted the parse.
pub open spec fn spec_transpile(src: Seq<char>) -> Result<Seq<char>, ParseError> {
    match spec_parse(spec_tokenize(spec_token_kinds(), src)) {
        Ok(ast) => Ok(spec_gen(ast)),
        Err(e) => Err(e),
    }
}

/// A character that a token of the standard registry can carry: a letter, a
/// digit, a parenthesis or a comma.
pub open spec fn tokenizable_char(c: char) -> bool {
    token::is_letter(c) || token::is_digit(c) || c == '(' || c == ')' || c == ','
}

/// Any input character sequence not matching a defined token pattern — an
/// operator symbol, whitespace — is skipped during tokenization and never
/// appears in the token sequence: every character of every token is one a
/// pattern admits.
pub proof fn lemma_unmatched_chars_dropped(src: Seq<char>, i: int, j: int)
    requires
        0 <= i < spec_tokenize(spec_token_kinds(), src).len(),
        0 <= j < spec_tokenize(spec_token_kinds(), src)[i].text.len(),
    ensures
        tokenizable_char(spec_tokenize(spec_token_kinds(), src)[i].text[j]),
{
    tokenizer::lemma_tokenize_wf(spec_token_kinds(), src);
    reveal_strlit("def");
    reveal_strlit("end");
    reveal_strlit("(");
    reveal_strlit(")");
    reveal_strlit(",");
    let t = spec_tokenize(spec_token_kinds(), src)[i];
    assert(token::wf_token(t));
    match t.kind {
        TokenKind::Def => {
            assert(t.text[j] == 'd' || t.text[j] == 'e' || t.text[j] == 'f');
        },
        TokenKind::End => {
            assert(t.text[j] == 'e' || t.text[j] == 'n' || t.text[j] == 'd');
        },
        _ => {},
    }
}

/// Transpiles a source text into its target-language text. Well-formed input
/// yields exactly the generated text of its syntax tree; malformed input
/// yields the parse error and no output. The result is a function of the
/// input text alone, so repeated calls on the same text agree.
pub fn transpile(code: &str) -> (r: Result<String, ParseError>)
    ensures
        match r {
            Ok(out) => spec_transpile(code@) == Ok::<Seq<char>, ParseError>(out@),
            Err(e) => spec_transpile(code@) == Err::<Seq<char>, ParseError>(e),
        },
{
    let kinds = token_kinds();
    let mut tokens: Vec<Token> = Vec::new();
    tokenize(code, &mut tokens, &kinds);
    proof {
        assert(views_of(tokens@) =~= spec_tokenize(spec_token_kinds(), code@));
    }
    match parse(&tokens) {
        Ok(ast) => Ok(generate(&ast)),
        Err(e) => Err(e),
    }
}

} // verus!
