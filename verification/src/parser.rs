use vstd::prelude::*;

use crate::node::{
    exprs_ok, is_expr, lemma_nodes_view_push, names_paren_free, node_view, nodes_view,
    paren_free_name, strings_view, CallNode, DefNode, IntNode, Node, NodeV, RootNode, VarRefNode,
};
use crate::token::{
    is_digit, is_letter, kind_name, views_of, wf_token, wf_tokens, Token, TokenKind, TokenV,
};
use vstd::string::{StrSliceExecFns, StringExecFns};

verus! {

/// Why a parse was aborted. The parser has no recovery: the first grammar
/// violation ends the whole parse.
#[derive(Clone, Copy, PartialEq, Eq, Structural, Debug)]
pub enum ParseError {
    /// A token of the wrong kind stood where `expected` was required.
    UnexpectedToken { expected: TokenKind, found: TokenKind },
    /// The token sequence was exhausted where `expected` was required.
    UnexpectedEnd { expected: TokenKind },
    /// An integer literal does not fit a 32-bit signed integer.
    IntegerOutOfRange,
}

/// The token views from position `pos` on.
pub open spec fn rest_from(tokens: Seq<Token>, pos: int) -> Seq<TokenV> {
    views_of(tokens).skip(pos)
}

/// Consuming the front token when it has the wanted kind: the token and the
/// rest, or the error that names what was expected and what stood there.
pub open spec fn spec_consume(ts: Seq<TokenV>, kind: TokenKind) -> Result<
    (TokenV, Seq<TokenV>),
    ParseError,
> {
    if ts.len() == 0 {
        Err(ParseError::UnexpectedEnd { expected: kind })
    } else if ts[0].kind == kind {
        Ok((ts[0], ts.skip(1)))
    } else {
        Err(ParseError::UnexpectedToken { expected: kind, found: ts[0].kind })
    }
}

/// The numeric value of a digit character; other characters count zero.
pub open spec fn digit_val(c: char) -> nat {
    if is_digit(c) {
        (c as u32 - '0' as u32) as nat
    } else {
        0
    }
}

/// The value of a digit string read in decimal.
pub open spec fn dec_value(text: Seq<char>) -> nat
    decreases text.len(),
{
    if text.len() == 0 {
        0
    } else {
        dec_value(text.drop_last()) * 10 + digit_val(text.last())
    }
}

/// Parsing an integer literal: the front token must be an `Integer`, and its
/// decimal value must fit a 32-bit signed integer.
pub open spec fn spec_parse_int(ts: Seq<TokenV>) -> Result<(NodeV, Seq<TokenV>), ParseError> {
    match spec_consume(ts, TokenKind::Integer) {
        Ok((t, rest)) => if dec_value(t.text) <= i32::MAX as int {
            Ok((NodeV::Int { value: dec_value(t.text) as int }, rest))
        } else {
            Err(ParseError::IntegerOutOfRange)
        },
        Err(e) => Err(e),
    }
}

/// Parsing a bare variable reference: the front token must be an
/// `Identifier`.
pub open spec fn spec_parse_var_ref(ts: Seq<TokenV>) -> Result<(NodeV, Seq<TokenV>), ParseError> {
    match spec_consume(ts, TokenKind::Identifier) {
        Ok((t, rest)) => Ok((NodeV::VarRef { name: t.text }, rest)),
        Err(e) => Err(e),
    }
}

/// Parsing one expression, dispatched on at most two tokens of lookahead: an
/// integer literal, a call when an identifier is followed by `(`, and
/// otherwise a variable reference.
pub open spec fn spec_parse_expr(ts: Seq<TokenV>) -> Result<(NodeV, Seq<TokenV>), ParseError>
    decreases ts.len(), 2int,
{
    if ts.len() > 0 && ts[0].kind == TokenKind::Integer {
        spec_parse_int(ts)
    } else if ts.len() >= 2 && ts[0].kind == TokenKind::Identifier && ts[1].kind
        == TokenKind::Oparam {
        spec_parse_call(ts)
    } else {
        spec_parse_var_ref(ts)
    }
}

/// Parsing a call: the callee name, then a parenthesized, comma-separated
/// list of argument expressions.
pub open spec fn spec_parse_call(ts: Seq<TokenV>) -> Result<(NodeV, Seq<TokenV>), ParseError>
    decreases ts.len(), 1int,
{
    match spec_consume(ts, TokenKind::Identifier) {
        Ok((t, ts1)) => match spec_parse_call_args(ts1) {
            Ok((args, ts2)) => Ok((NodeV::Call { name: t.text, args }, ts2)),
            Err(e) => Err(e),
        },
        Err(e) => Err(e),
    }
}

/// Parsing a call's argument list after the callee name: `(`, zero or more
/// expressions separated by commas, `)`. Trailing commas are rejected.
pub open spec fn spec_parse_call_args(ts: Seq<TokenV>) -> Result<
    (Seq<NodeV>, Seq<TokenV>),
    ParseError,
>
    decreases ts.len(), 3int,
{
    match spec_consume(ts, TokenKind::Oparam) {
        Ok((_, ts1)) => if ts1.len() > 0 && ts1[0].kind == TokenKind::Cparam {
            Ok((Seq::empty(), ts1.skip(1)))
        } else {
            match spec_parse_expr(ts1) {
                Ok((e0, rest)) => if rest.len() < ts1.len() {
                    spec_parse_call_args_rest(seq![e0], rest)
                } else {
                    // unreachable: an expression consumes at least one
                    // token (`lemma_parse_expr_consumes`)
                    Err(ParseError::UnexpectedEnd { expected: TokenKind::Cparam })
                },
                Err(e) => Err(e),
            }
        },
        Err(e) => Err(e),
    }
}

/// Parsing the remainder of an argument list after at least one expression:
/// either `, expression` again, or the closing `)`.
pub open spec fn spec_parse_call_args_rest(acc: Seq<NodeV>, ts: Seq<TokenV>) -> Result<
    (Seq<NodeV>, Seq<TokenV>),
    ParseError,
>
    decreases ts.len(), 4int,
{
    if ts.len() > 0 && ts[0].kind == TokenKind::Comma {
        match spec_parse_expr(ts.skip(1)) {
            Ok((e, rest)) => if rest.len() < ts.len() {
                spec_parse_call_args_rest(acc.push(e), rest)
            } else {
                // unreachable: an expression consumes at least one token
                // (`lemma_parse_expr_consumes`)
                Err(ParseError::UnexpectedEnd { expected: TokenKind::Cparam })
            },
            Err(e) => Err(e),
        }
    } else {
        match spec_consume(ts, TokenKind::Cparam) {
            Ok((_, rest)) => Ok((acc, rest)),
            Err(e) => Err(e),
        }
    }
}

/// Parsing a definition's parameter list: `(`, zero or more identifiers
/// separated by commas, `)`. Trailing commas are rejected.
pub open spec fn spec_parse_def_args(ts: Seq<TokenV>) -> Result<
    (Seq<Seq<char>>, Seq<TokenV>),
    ParseError,
> {
    match spec_consume(ts, TokenKind::Oparam) {
        Ok((_, ts1)) => if ts1.len() > 0 && ts1[0].kind == TokenKind::Cparam {
            Ok((Seq::empty(), ts1.skip(1)))
        } else {
            match spec_consume(ts1, TokenKind::Identifier) {
                Ok((t, ts2)) => spec_parse_def_args_rest(seq![t.text], ts2),
                Err(e) => Err(e),
            }
        },
        Err(e) => Err(e),
    }
}

/// Parsing the remainder of a parameter list after at least one name: either
/// `, name` again, or the closing `)`.
pub open spec fn spec_parse_def_args_rest(acc: Seq<Seq<char>>, ts: Seq<TokenV>) -> Result<
    (Seq<Seq<char>>, Seq<TokenV>),
    ParseError,
>
    decreases ts.len(),
{
    if ts.len() > 0 && ts[0].kind == TokenKind::Comma {
        match spec_consume(ts.skip(1), TokenKind::Identifier) {
            Ok((t, ts2)) => spec_parse_def_args_rest(acc.push(t.text), ts2),
            Err(e) => Err(e),
        }
    } else {
        match spec_consume(ts, TokenKind::Cparam) {
            Ok((_, rest)) => Ok((acc, rest)),
            Err(e) => Err(e),
        }
    }
}

/// Parsing a definition: `def`, the name, the parameter list, an optional
/// single body expression, and `end`.
pub open spec fn spec_parse_def(ts: Seq<TokenV>) -> Result<(NodeV, Seq<TokenV>), ParseError> {
    match spec_consume(ts, TokenKind::Def) {
        Ok((_, ts1)) => match spec_consume(ts1, TokenKind::Identifier) {
            Ok((name_t, ts2)) => match spec_parse_def_args(ts2) {
                Ok((arg_names, ts3)) => {
                    let body_parse = if ts3.len() > 0 && ts3[0].kind == TokenKind::End {
                        Ok((Seq::<NodeV>::empty(), ts3))
                    } else {
                        match spec_parse_expr(ts3) {
                            Ok((e, rest)) => Ok((seq![e], rest)),
                            Err(e) => Err(e),
                        }
                    };
                    match body_parse {
                        Ok((body, ts4)) => match spec_consume(ts4, TokenKind::End) {
                            Ok((_, rest)) => Ok(
                                (NodeV::Def { name: name_t.text, arg_names, body }, rest),
                            ),
                            Err(e) => Err(e),
                        },
                        Err(e) => Err(e),
                    }
                },
                Err(e) => Err(e),
            },
            Err(e) => Err(e),
        },
        Err(e) => Err(e),
    }
}

/// Parsing a whole program: an empty token sequence yields an empty root;
/// otherwise exactly one definition is parsed and becomes the root's sole
/// body element. Tokens after the definition are ignored, as the grammar
/// holds at most one top-level definition.
pub open spec fn spec_parse(ts: Seq<TokenV>) -> Result<NodeV, ParseError> {
    if ts.len() == 0 {
        Ok(NodeV::Root { body: Seq::empty() })
    } else {
        match spec_parse_def(ts) {
            Ok((d, _rest)) => Ok(NodeV::Root { body: seq![d] }),
            Err(e) => Err(e),
        }
    }
}

/// A parsed expression always consumes at least one token, so the guarded
/// fallback branches of the argument-list spec functions are unreachable.
pub proof fn lemma_parse_expr_consumes(ts: Seq<TokenV>)
    ensures
        spec_parse_expr(ts) matches Ok((n, rest)) ==> rest.len() < ts.len(),
    decreases ts.len(), 2int,
{
    if ts.len() >= 2 && ts[0].kind == TokenKind::Identifier && ts[1].kind == TokenKind::Oparam {
        lemma_parse_call_consumes(ts);
    }
}

proof fn lemma_parse_call_consumes(ts: Seq<TokenV>)
    ensures
        spec_parse_call(ts) matches Ok((n, rest)) ==> rest.len() < ts.len(),
    decreases ts.len(), 1int,
{
    if ts.len() > 0 && ts[0].kind == TokenKind::Identifier {
        lemma_parse_call_args_consumes(ts.skip(1));
    }
}

proof fn lemma_parse_call_args_consumes(ts: Seq<TokenV>)
    ensures
        spec_parse_call_args(ts) matches Ok((args, rest)) ==> rest.len() < ts.len(),
    decreases ts.len(), 3int,
{
    if ts.len() > 0 && ts[0].kind == TokenKind::Oparam {
        let ts1 = ts.skip(1);
        if !(ts1.len() > 0 && ts1[0].kind == TokenKind::Cparam) {
            lemma_parse_expr_consumes(ts1);
            match spec_parse_expr(ts1) {
                Ok((e0, rest)) => {
                    if rest.len() < ts1.len() {
                        lemma_parse_call_args_rest_consumes(seq![e0], rest);
                    }
                },
                Err(_) => {},
            }
        }
    }
}

proof fn lemma_parse_call_args_rest_consumes(acc: Seq<NodeV>, ts: Seq<TokenV>)
    ensures
        spec_parse_call_args_rest(acc, ts) matches Ok((out, rest)) ==> rest.len() < ts.len(),
    decreases ts.len(), 4int,
{
    if ts.len() > 0 && ts[0].kind == TokenKind::Comma {
        lemma_parse_expr_consumes(ts.skip(1));
        match spec_parse_expr(ts.skip(1)) {
            Ok((e, rest)) => {
                if rest.len() < ts.len() {
                    lemma_parse_call_args_rest_consumes(acc.push(e), rest);
                }
            },
            Err(_) => {},
        }
    }
}

/// Suffixes of well-formed tokens are well formed.
proof fn lemma_wf_skip(ts: Seq<TokenV>, k: int)
    requires
        wf_tokens(ts),
        0 <= k <= ts.len(),
    ensures
        wf_tokens(ts.skip(k)),
{
    assert forall|i: int| 0 <= i < ts.skip(k).len() implies wf_token(#[trigger] ts.skip(k)[i]) by {
        assert(ts.skip(k)[i] == ts[k + i]);
    }
}

/// A well-formed identifier token's text holds letters only, so no
/// parentheses.
proof fn lemma_identifier_paren_free(t: TokenV)
    requires
        wf_token(t),
        t.kind == TokenKind::Identifier,
    ensures
        paren_free_name(t.text),
{
    assert forall|i: int| 0 <= i < t.text.len() implies #[trigger] t.text[i] != '(' && t.text[i]
        != ')' by {
        assert(is_letter(t.text[i]));
    }
}

/// Every expression parsed from well-formed tokens is an expression node
/// whose names hold no parentheses, and the remaining tokens are well formed
/// too: the parenthesis-depth law applies to every parsed expression.
pub proof fn lemma_parse_expr_shape(ts: Seq<TokenV>)
    requires
        wf_tokens(ts),
    ensures
        spec_parse_expr(ts) matches Ok((n, rest)) ==> is_expr(n) && names_paren_free(n)
            && wf_tokens(rest),
    decreases ts.len(), 2int,
{
    if ts.len() > 0 && ts[0].kind == TokenKind::Integer {
        lemma_wf_skip(ts, 1);
    } else if ts.len() >= 2 && ts[0].kind == TokenKind::Identifier && ts[1].kind
        == TokenKind::Oparam {
        lemma_parse_call_shape(ts);
    } else {
        if ts.len() > 0 && ts[0].kind == TokenKind::Identifier {
            lemma_identifier_paren_free(ts[0]);
            lemma_wf_skip(ts, 1);
        }
    }
}

proof fn lemma_parse_call_shape(ts: Seq<TokenV>)
    requires
        wf_tokens(ts),
    ensures
        spec_parse_call(ts) matches Ok((n, rest)) ==> is_expr(n) && names_paren_free(n)
            && wf_tokens(rest),
    decreases ts.len(), 1int,
{
    if ts.len() > 0 && ts[0].kind == TokenKind::Identifier {
        lemma_identifier_paren_free(ts[0]);
        lemma_wf_skip(ts, 1);
        lemma_parse_call_args_shape(ts.skip(1));
    }
}

proof fn lemma_parse_call_args_shape(ts: Seq<TokenV>)
    requires
        wf_tokens(ts),
    ensures
        spec_parse_call_args(ts) matches Ok((args, rest)) ==> exprs_ok(args) && wf_tokens(rest),
    decreases ts.len(), 3int,
{
    if ts.len() > 0 && ts[0].kind == TokenKind::Oparam {
        let ts1 = ts.skip(1);
        lemma_wf_skip(ts, 1);
        if ts1.len() > 0 && ts1[0].kind == TokenKind::Cparam {
            lemma_wf_skip(ts1, 1);
        } else {
            lemma_parse_expr_shape(ts1);
            match spec_parse_expr(ts1) {
                Ok((e0, rest)) => {
                    if rest.len() < ts1.len() {
                        assert(exprs_ok(seq![e0]));
                        lemma_parse_call_args_rest_shape(seq![e0], rest);
                    }
                },
                Err(_) => {},
            }
        }
    }
}

proof fn lemma_parse_call_args_rest_shape(acc: Seq<NodeV>, ts: Seq<TokenV>)
    requires
        wf_tokens(ts),
        exprs_ok(acc),
    ensures
        spec_parse_call_args_rest(acc, ts) matches Ok((out, rest)) ==> exprs_ok(out) && wf_tokens(
            rest,
        ),
    decreases ts.len(), 4int,
{
    if ts.len() > 0 && ts[0].kind == TokenKind::Comma {
        lemma_wf_skip(ts, 1);
        lemma_parse_expr_shape(ts.skip(1));
        match spec_parse_expr(ts.skip(1)) {
            Ok((e, rest)) => {
                if rest.len() < ts.len() {
                    assert forall|i: int| 0 <= i < acc.push(e).len() implies is_expr(
                        #[trigger] acc.push(e)[i],
                    ) && names_paren_free(acc.push(e)[i]) by {
                        if i < acc.len() {
                            assert(acc.push(e)[i] == acc[i]);
                        } else {
                            assert(acc.push(e)[i] == e);
                        }
                    }
                    lemma_parse_call_args_rest_shape(acc.push(e), rest);
                }
            },
            Err(_) => {},
        }
    } else {
        if ts.len() > 0 && ts[0].kind == TokenKind::Cparam {
            lemma_wf_skip(ts, 1);
        }
    }
}

/// The body of a definition parsed from well-formed tokens holds only
/// expressions whose names hold no parentheses.
pub proof fn lemma_parse_def_shape(ts: Seq<TokenV>)
    requires
        wf_tokens(ts),
    ensures
        spec_parse_def(ts) matches Ok((d, rest)) ==> (d matches NodeV::Def { body, .. }
            && exprs_ok(body)),
{
    if ts.len() > 0 && ts[0].kind == TokenKind::Def {
        let ts1 = ts.skip(1);
        lemma_wf_skip(ts, 1);
        if ts1.len() > 0 && ts1[0].kind == TokenKind::Identifier {
            let ts2 = ts1.skip(1);
            lemma_wf_skip(ts1, 1);
            match spec_parse_def_args(ts2) {
                Ok((arg_names, ts3)) => {
                    lemma_parse_def_args_wf(ts2);
                    if !(ts3.len() > 0 && ts3[0].kind == TokenKind::End) {
                        lemma_parse_expr_shape(ts3);
                        match spec_parse_expr(ts3) {
                            Ok((e, _)) => {
                                assert(exprs_ok(seq![e]));
                            },
                            Err(_) => {},
                        }
                    } else {
                        assert(exprs_ok(Seq::<NodeV>::empty()));
                    }
                },
                Err(_) => {},
            }
        }
    }
}

proof fn lemma_parse_def_args_wf(ts: Seq<TokenV>)
    requires
        wf_tokens(ts),
    ensures
        spec_parse_def_args(ts) matches Ok((names, rest)) ==> wf_tokens(rest),
{
    if ts.len() > 0 && ts[0].kind == TokenKind::Oparam {
        let ts1 = ts.skip(1);
        lemma_wf_skip(ts, 1);
        if ts1.len() > 0 && ts1[0].kind == TokenKind::Cparam {
            lemma_wf_skip(ts1, 1);
        } else {
            if ts1.len() > 0 && ts1[0].kind == TokenKind::Identifier {
                lemma_wf_skip(ts1, 1);
                lemma_parse_def_args_rest_wf(seq![ts1[0].text], ts1.skip(1));
            }
        }
    }
}

proof fn lemma_parse_def_args_rest_wf(acc: Seq<Seq<char>>, ts: Seq<TokenV>)
    requires
        wf_tokens(ts),
    ensures
        spec_parse_def_args_rest(acc, ts) matches Ok((names, rest)) ==> wf_tokens(rest),
    decreases ts.len(),
{
    if ts.len() > 0 && ts[0].kind == TokenKind::Comma {
        let ts1 = ts.skip(1);
        lemma_wf_skip(ts, 1);
        if ts1.len() > 0 && ts1[0].kind == TokenKind::Identifier {
            lemma_wf_skip(ts1, 1);
            lemma_parse_def_args_rest_wf(acc.push(ts1[0].text), ts1.skip(1));
        }
    } else {
        if ts.len() > 0 && ts[0].kind == TokenKind::Cparam {
            lemma_wf_skip(ts, 1);
        }
    }
}

/// Whether the token at `pos` exists and has kind `kind`.
fn kind_at(tokens: &Vec<Token>, pos: usize, kind: TokenKind) -> (r: bool)
    ensures
        r == (pos < tokens@.len() && views_of(tokens@)[pos as int].kind == kind),
{
    pos < tokens.len() && tokens[pos].kind == kind
}

/// Takes the token at `pos` when it has kind `kind`, handing back the token
/// and the next position; otherwise the error says what was expected and
/// what stood there.
pub fn consume<'a>(tokens: &'a Vec<Token>, pos: usize, kind: TokenKind) -> (r: Result<
    (&'a Token, usize),
    ParseError,
>)
    requires
        pos <= tokens@.len(),
    ensures
        match r {
            Ok((t, p)) => {
                &&& spec_consume(rest_from(tokens@, pos as int), kind) == Ok::<
                    (TokenV, Seq<TokenV>),
                    ParseError,
                >((t@, rest_from(tokens@, p as int)))
                &&& p == pos + 1
                &&& pos < tokens@.len()
                &&& *t == tokens@[pos as int]
            },
            Err(e) => spec_consume(rest_from(tokens@, pos as int), kind) == Err::<
                (TokenV, Seq<TokenV>),
                ParseError,
            >(e),
        },
{
    let ghost ts = rest_from(tokens@, pos as int);
    proof {
        if pos < tokens@.len() {
            assert(ts[0] == views_of(tokens@)[pos as int]);
            assert(ts.skip(1) =~= rest_from(tokens@, pos + 1));
        }
    }
    if pos < tokens.len() {
        let t = &tokens[pos];
        if t.kind == kind {
            Ok((t, pos + 1))
        } else {
            Err(ParseError::UnexpectedToken { expected: kind, found: t.kind })
        }
    } else {
        Err(ParseError::UnexpectedEnd { expected: kind })
    }
}

/// The numeric value of a digit character; other characters count zero.
fn digit_value(c: char) -> (d: u64)
    ensures
        d as nat == digit_val(c),
        d <= 9,
{
    let u = c as u32;
    if '0' as u32 <= u && u <= '9' as u32 {
        (u - '0' as u32) as u64
    } else {
        0
    }
}

proof fn lemma_dec_value_take_step(text: Seq<char>, i: int)
    requires
        0 <= i < text.len(),
    ensures
        dec_value(text.take(i + 1)) == dec_value(text.take(i)) * 10 + digit_val(text[i]),
{
    assert(text.take(i + 1).drop_last() =~= text.take(i));
    assert(text.take(i + 1).last() == text[i]);
}

proof fn lemma_dec_value_monotone(text: Seq<char>, i: int)
    requires
        0 <= i <= text.len(),
    ensures
        dec_value(text.take(i)) <= dec_value(text),
    decreases text.len() - i,
{
    if i < text.len() {
        lemma_dec_value_take_step(text, i);
        lemma_dec_value_monotone(text, i + 1);
    } else {
        assert(text.take(i) =~= text);
    }
}

/// Reads a token text as a decimal integer, rejecting values over
/// `i32::MAX`.
fn int_value(text: &String) -> (r: Result<i32, ParseError>)
    ensures
        match r {
            Ok(v) => 0 <= v && v as nat == dec_value(text@) && dec_value(text@) <= i32::MAX as int,
            Err(e) => e == ParseError::IntegerOutOfRange && dec_value(text@) > i32::MAX as int,
        },
{
    let t = text.as_str();
    let n = t.unicode_len();
    let mut i: usize = 0;
    let mut acc: u64 = 0;
    proof {
        assert(text@.take(0) =~= Seq::<char>::empty());
    }
    while i < n
        invariant
            i <= n,
            n as nat == text@.len(),
            t@ == text@,
            acc as nat == dec_value(text@.take(i as int)),
            acc <= i32::MAX as u64,
        decreases n - i,
    {
        let c = t.get_char(i);
        let d = digit_value(c);
        let next: u64 = acc * 10 + d;
        proof {
            lemma_dec_value_take_step(text@, i as int);
        }
        if next > i32::MAX as u64 {
            proof {
                lemma_dec_value_monotone(text@, i + 1);
            }
            return Err(ParseError::IntegerOutOfRange);
        }
        acc = next;
        i = i + 1;
    }
    proof {
        assert(text@.take(i as int) =~= text@);
    }
    Ok(acc as i32)
}

fn parse_int(tokens: &Vec<Token>, pos: usize) -> (r: Result<(Node, usize), ParseError>)
    requires
        pos <= tokens@.len(),
    ensures
        match r {
            Ok((n, p)) => spec_parse_int(rest_from(tokens@, pos as int)) == Ok::<
                (NodeV, Seq<TokenV>),
                ParseError,
            >((node_view(n), rest_from(tokens@, p as int))) && pos < p <= tokens@.len(),
            Err(e) => spec_parse_int(rest_from(tokens@, pos as int)) == Err::<
                (NodeV, Seq<TokenV>),
                ParseError,
            >(e),
        },
{
    match consume(tokens, pos, TokenKind::Integer) {
        Ok((t, p)) => match int_value(&t.text) {
            Ok(v) => Ok((Node::Int(IntNode { value: v }), p)),
            Err(e) => Err(e),
        },
        Err(e) => Err(e),
    }
}

fn parse_var_ref(tokens: &Vec<Token>, pos: usize) -> (r: Result<(Node, usize), ParseError>)
    requires
        pos <= tokens@.len(),
    ensures
        match r {
            Ok((n, p)) => spec_parse_var_ref(rest_from(tokens@, pos as int)) == Ok::<
                (NodeV, Seq<TokenV>),
                ParseError,
            >((node_view(n), rest_from(tokens@, p as int))) && pos < p <= tokens@.len(),
            Err(e) => spec_parse_var_ref(rest_from(tokens@, pos as int)) == Err::<
                (NodeV, Seq<TokenV>),
                ParseError,
            >(e),
        },
{
    match consume(tokens, pos, TokenKind::Identifier) {
        Ok((t, p)) => Ok((Node::VarRef(VarRefNode { name: t.text.clone() }), p)),
        Err(e) => Err(e),
    }
}

fn parse_expr(tokens: &Vec<Token>, pos: usize) -> (r: Result<(Node, usize), ParseError>)
    requires
        pos <= tokens@.len(),
    ensures
        match r {
            Ok((n, p)) => spec_parse_expr(rest_from(tokens@, pos as int)) == Ok::<
                (NodeV, Seq<TokenV>),
                ParseError,
            >((node_view(n), rest_from(tokens@, p as int))) && pos < p <= tokens@.len(),
            Err(e) => spec_parse_expr(rest_from(tokens@, pos as int)) == Err::<
                (NodeV, Seq<TokenV>),
                ParseError,
            >(e),
        },
    decreases tokens@.len() - pos, 2int,
{
    // binds the length so the prover sees every position fits usize
    let _len = tokens.len();
    let ghost ts = rest_from(tokens@, pos as int);
    proof {
        if pos < tokens@.len() {
            assert(ts[0] == views_of(tokens@)[pos as int]);
        }
        if pos + 1 < tokens@.len() {
            assert(ts[1] == views_of(tokens@)[pos + 1]);
        }
    }
    if kind_at(tokens, pos, TokenKind::Integer) {
        parse_int(tokens, pos)
    } else if kind_at(tokens, pos, TokenKind::Identifier) && kind_at(
        tokens,
        pos + 1,
        TokenKind::Oparam,
    ) {
        parse_call(tokens, pos)
    } else {
        parse_var_ref(tokens, pos)
    }
}

fn parse_call(tokens: &Vec<Token>, pos: usize) -> (r: Result<(Node, usize), ParseError>)
    requires
        pos <= tokens@.len(),
    ensures
        match r {
            Ok((n, p)) => spec_parse_call(rest_from(tokens@, pos as int)) == Ok::<
                (NodeV, Seq<TokenV>),
                ParseError,
            >((node_view(n), rest_from(tokens@, p as int))) && pos < p <= tokens@.len(),
            Err(e) => spec_parse_call(rest_from(tokens@, pos as int)) == Err::<
                (NodeV, Seq<TokenV>),
                ParseError,
            >(e),
        },
    decreases tokens@.len() - pos, 1int,
{
    match consume(tokens, pos, TokenKind::Identifier) {
        Ok((t, p1)) => {
            let name = t.text.clone();
            match parse_call_args(tokens, p1) {
                Ok((args, p2)) => Ok((Node::Call(CallNode { name, arg_expr: args }), p2)),
                Err(e) => Err(e),
            }
        },
        Err(e) => Err(e),
    }
}

fn parse_call_args(tokens: &Vec<Token>, pos: usize) -> (r: Result<(Vec<Node>, usize), ParseError>)
    requires
        pos <= tokens@.len(),
    ensures
        match r {
            Ok((args, p)) => spec_parse_call_args(rest_from(tokens@, pos as int)) == Ok::<
                (Seq<NodeV>, Seq<TokenV>),
                ParseError,
            >((nodes_view(args@), rest_from(tokens@, p as int))) && pos < p <= tokens@.len(),
            Err(e) => spec_parse_call_args(rest_from(tokens@, pos as int)) == Err::<
                (Seq<NodeV>, Seq<TokenV>),
                ParseError,
            >(e),
        },
    decreases tokens@.len() - pos, 3int,
{
    // binds the length so the prover sees every position fits usize
    let _len = tokens.len();
    match consume(tokens, pos, TokenKind::Oparam) {
        Ok((_, p1)) => {
            proof {
                if p1 < tokens@.len() {
                    assert(rest_from(tokens@, p1 as int)[0] == views_of(tokens@)[p1 as int]);
                }
            }
            if kind_at(tokens, p1, TokenKind::Cparam) {
                proof {
                    assert(rest_from(tokens@, p1 as int).skip(1) =~= rest_from(tokens@, p1 + 1));
                }
                Ok((Vec::new(), p1 + 1))
            } else {
                match parse_expr(tokens, p1) {
                    Ok((e0, p2)) => {
                        let mut args: Vec<Node> = Vec::new();
                        args.push(e0);
                        proof {
                            assert(args@.drop_last() =~= Seq::<Node>::empty());
                            assert(nodes_view(Seq::<Node>::empty()) == Seq::<NodeV>::empty());
                            assert(nodes_view(args@) =~= seq![node_view(e0)]);
                        }
                        parse_call_args_rest(tokens, p2, args)
                    },
                    Err(e) => Err(e),
                }
            }
        },
        Err(e) => Err(e),
    }
}

fn parse_call_args_rest(tokens: &Vec<Token>, pos: usize, args: Vec<Node>) -> (r: Result<
    (Vec<Node>, usize),
    ParseError,
>)
    requires
        pos <= tokens@.len(),
    ensures
        match r {
            Ok((out, p)) => spec_parse_call_args_rest(
                nodes_view(args@),
                rest_from(tokens@, pos as int),
            ) == Ok::<(Seq<NodeV>, Seq<TokenV>), ParseError>(
                (nodes_view(out@), rest_from(tokens@, p as int)),
            ) && pos < p <= tokens@.len(),
            Err(e) => spec_parse_call_args_rest(nodes_view(args@), rest_from(tokens@, pos as int))
                == Err::<(Seq<NodeV>, Seq<TokenV>), ParseError>(e),
        },
    decreases tokens@.len() - pos, 4int,
{
    // binds the length so the prover sees every position fits usize
    let _len = tokens.len();
    let ghost ts = rest_from(tokens@, pos as int);
    proof {
        if pos < tokens@.len() {
            assert(ts[0] == views_of(tokens@)[pos as int]);
        }
    }
    if kind_at(tokens, pos, TokenKind::Comma) {
        proof {
            assert(ts.skip(1) =~= rest_from(tokens@, pos + 1));
        }
        match parse_expr(tokens, pos + 1) {
            Ok((e, p2)) => {
                let mut args2 = args;
                let ghost before = args2@;
                args2.push(e);
                proof {
                    lemma_nodes_view_push(before, e);
                }
                parse_call_args_rest(tokens, p2, args2)
            },
            Err(e) => Err(e),
        }
    } else {
        match consume(tokens, pos, TokenKind::Cparam) {
            Ok((_, p)) => Ok((args, p)),
            Err(e) => Err(e),
        }
    }
}

fn parse_def_args(tokens: &Vec<Token>, pos: usize) -> (r: Result<(Vec<String>, usize), ParseError>)
    requires
        pos <= tokens@.len(),
    ensures
        match r {
            Ok((names, p)) => spec_parse_def_args(rest_from(tokens@, pos as int)) == Ok::<
                (Seq<Seq<char>>, Seq<TokenV>),
                ParseError,
            >((strings_view(names@), rest_from(tokens@, p as int))) && pos < p <= tokens@.len(),
            Err(e) => spec_parse_def_args(rest_from(tokens@, pos as int)) == Err::<
                (Seq<Seq<char>>, Seq<TokenV>),
                ParseError,
            >(e),
        },
{
    // binds the length so the prover sees every position fits usize
    let _len = tokens.len();
    match consume(tokens, pos, TokenKind::Oparam) {
        Ok((_, p1)) => {
            proof {
                if p1 < tokens@.len() {
                    assert(rest_from(tokens@, p1 as int)[0] == views_of(tokens@)[p1 as int]);
                }
            }
            if kind_at(tokens, p1, TokenKind::Cparam) {
                proof {
                    assert(rest_from(tokens@, p1 as int).skip(1) =~= rest_from(tokens@, p1 + 1));
                    assert(strings_view(Seq::<String>::empty()) =~= Seq::<Seq<char>>::empty());
                }
                Ok((Vec::new(), p1 + 1))
            } else {
                match consume(tokens, p1, TokenKind::Identifier) {
                    Ok((t, p2)) => {
                        let mut names: Vec<String> = Vec::new();
                        names.push(t.text.clone());
                        proof {
                            assert(strings_view(names@) =~= seq![t.text@]);
                        }
                        let mut p = p2;
                        while kind_at(tokens, p, TokenKind::Comma)
                            invariant
                                pos < p <= tokens@.len(),
                                spec_parse_def_args(rest_from(tokens@, pos as int))
                                    == spec_parse_def_args_rest(
                                    strings_view(names@),
                                    rest_from(tokens@, p as int),
                                ),
                            decreases tokens@.len() - p,
                        {
                            // binds the length so the prover sees every position fits usize
                            let _len = tokens.len();
                            let ghost ts = rest_from(tokens@, p as int);
                            proof {
                                assert(ts[0] == views_of(tokens@)[p as int]);
                                assert(ts.skip(1) =~= rest_from(tokens@, p + 1));
                            }
                            match consume(tokens, p + 1, TokenKind::Identifier) {
                                Ok((t2, p3)) => {
                                    let ghost before = names@;
                                    names.push(t2.text.clone());
                                    proof {
                                        assert(strings_view(names@) =~= strings_view(before).push(
                                            t2.text@,
                                        ));
                                    }
                                    p = p3;
                                },
                                Err(e) => {
                                    return Err(e);
                                },
                            }
                        }
                        proof {
                            let ts = rest_from(tokens@, p as int);
                            if p < tokens@.len() {
                                assert(ts[0] == views_of(tokens@)[p as int]);
                            }
                        }
                        match consume(tokens, p, TokenKind::Cparam) {
                            Ok((_, p4)) => Ok((names, p4)),
                            Err(e) => Err(e),
                        }
                    },
                    Err(e) => Err(e),
                }
            }
        },
        Err(e) => Err(e),
    }
}

/// Parses one definition starting at `pos`: `def`, the name, the parameter
/// list, an optional single body expression, and `end`.
pub fn parse_def(tokens: &Vec<Token>, pos: usize) -> (r: Result<(Node, usize), ParseError>)
    requires
        pos <= tokens@.len(),
    ensures
        match r {
            Ok((n, p)) => spec_parse_def(rest_from(tokens@, pos as int)) == Ok::<
                (NodeV, Seq<TokenV>),
                ParseError,
            >((node_view(n), rest_from(tokens@, p as int))) && pos < p <= tokens@.len(),
            Err(e) => spec_parse_def(rest_from(tokens@, pos as int)) == Err::<
                (NodeV, Seq<TokenV>),
                ParseError,
            >(e),
        },
{
    match consume(tokens, pos, TokenKind::Def) {
        Ok((_, p1)) => match consume(tokens, p1, TokenKind::Identifier) {
            Ok((name_t, p2)) => {
                let name = name_t.text.clone();
                match parse_def_args(tokens, p2) {
                    Ok((arg_names, p3)) => {
                        proof {
                            if p3 < tokens@.len() {
                                assert(rest_from(tokens@, p3 as int)[0] == views_of(tokens@)[
                                p3 as int]);
                            }
                        }
                        let mut body: Vec<Node> = Vec::new();
                        let p4: usize;
                        if !kind_at(tokens, p3, TokenKind::End) {
                            match parse_expr(tokens, p3) {
                                Ok((e, pe)) => {
                                    body.push(e);
                                    proof {
                                        assert(body@.drop_last() =~= Seq::<Node>::empty());
                                        assert(nodes_view(Seq::<Node>::empty()) == Seq::<
                                            NodeV,
                                        >::empty());
                                        assert(nodes_view(body@) =~= seq![node_view(e)]);
                                    }
                                    p4 = pe;
                                },
                                Err(e) => {
                                    return Err(e);
                                },
                            }
                        } else {
                            proof {
                                assert(nodes_view(body@) =~= Seq::<NodeV>::empty());
                            }
                            p4 = p3;
                        }
                        match consume(tokens, p4, TokenKind::End) {
                            Ok((_, p5)) => Ok(
                                (Node::Def(DefNode { name, arg_names, body }), p5),
                            ),
                            Err(e) => Err(e),
                        }
                    },
                    Err(e) => Err(e),
                }
            },
            Err(e) => Err(e),
        },
        Err(e) => Err(e),
    }
}

/// Parses a whole token sequence into the root node: an empty sequence
/// yields an empty root, and otherwise exactly one definition is parsed.
pub fn parse(tokens: &Vec<Token>) -> (r: Result<Node, ParseError>)
    ensures
        match r {
            Ok(ast) => spec_parse(views_of(tokens@)) == Ok::<NodeV, ParseError>(node_view(ast)),
            Err(e) => spec_parse(views_of(tokens@)) == Err::<NodeV, ParseError>(e),
        },
{
    proof {
        assert(rest_from(tokens@, 0) =~= views_of(tokens@));
    }
    if tokens.len() == 0 {
        let body: Vec<Node> = Vec::new();
        proof {
            assert(nodes_view(body@) =~= Seq::<NodeV>::empty());
        }
        Ok(Node::Root(RootNode { body }))
    } else {
        match parse_def(tokens, 0) {
            Ok((d, _p)) => {
                let mut body: Vec<Node> = Vec::new();
                body.push(d);
                proof {
                    assert(body@.drop_last() =~= Seq::<Node>::empty());
                    assert(nodes_view(Seq::<Node>::empty()) == Seq::<NodeV>::empty());
                    assert(nodes_view(body@) =~= seq![node_view(d)]);
                }
                Ok(Node::Root(RootNode { body }))
            },
            Err(e) => Err(e),
        }
    }
}

/// The diagnostic text of a parse error, naming the expected and the actual
/// token kind.
pub open spec fn spec_error_message(e: ParseError) -> Seq<char> {
    match e {
        ParseError::UnexpectedToken { expected, found } => "expected "@ + kind_name(expected)
            + ", found "@ + kind_name(found),
        ParseError::UnexpectedEnd { expected } => "expected "@ + kind_name(expected)
            + ", found end of input"@,
        ParseError::IntegerOutOfRange => "integer literal out of range"@,
    }
}

impl ParseError {
    /// The diagnostic text of this error.
    pub fn message(&self) -> (r: String)
        ensures
            r@ == spec_error_message(*self),
    {
        match self {
            ParseError::UnexpectedToken { expected, found } => {
                let mut out = "expected ".to_owned();
                out.append(expected.name().as_str());
                out.append(", found ");
                out.append(found.name().as_str());
                out
            },
            ParseError::UnexpectedEnd { expected } => {
                let mut out = "expected ".to_owned();
                out.append(expected.name().as_str());
                out.append(", found end of input");
                out
            },
            ParseError::IntegerOutOfRange => "integer literal out of range".to_owned(),
        }
    }
}

} // verus!
