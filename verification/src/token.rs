use vstd::prelude::*;

verus! {

/// The lexical categories of the source language. An ordered registry of
/// kinds (see `crate::token_kinds`) decides match priority: the first kind
/// whose pattern matches a prefix of the remaining text wins.
///
/// Each kind's pattern, anchored at the start of the remaining text:
/// - `Def` and `End` match their keyword when the character after it, if any,
///   is not a word character (a word boundary).
/// - `Identifier` matches a maximal run of ASCII letters ending at a word
///   boundary.
/// - `Integer` matches a maximal run of ASCII digits ending at a word
///   boundary.
/// - `Oparam`, `Cparam` and `Comma` match the single characters `(`, `)`
///   and `,`.
#[derive(Clone, Copy, PartialEq, Eq, Structural, Debug)]
pub enum TokenKind {
    Def,
    End,
    Identifier,
    Integer,
    Oparam,
    Cparam,
    Comma,
}

/// One lexeme: its kind and the exact substring of the source it matched.
/// Tokens are created by the tokenizer and read by the parser.
#[derive(Debug)]
pub struct Token {
    pub kind: TokenKind,
    pub text: String,
}

/// The mathematical content of a `Token`: the kind together with the matched
/// characters.
pub struct TokenV {
    pub kind: TokenKind,
    pub text: Seq<char>,
}

impl View for Token {
    type V = TokenV;

    open spec fn view(&self) -> TokenV {
        TokenV { kind: self.kind, text: self.text@ }
    }
}

impl Token {
    pub fn new(kind: TokenKind, text: String) -> (t: Token)
        ensures
            t@ == (TokenV { kind, text: text@ }),
    {
        Token { kind, text }
    }
}

/// The views of a sequence of tokens, in order.
pub open spec fn views_of(tokens: Seq<Token>) -> Seq<TokenV> {
    tokens.map_values(|t: Token| t@)
}

/// An ASCII letter, `a`-`z` or `A`-`Z`.
pub open spec fn is_letter(c: char) -> bool {
    ('a' as u32 <= c as u32 && c as u32 <= 'z' as u32) || ('A' as u32 <= c as u32 && c as u32
        <= 'Z' as u32)
}

/// An ASCII digit, `0`-`9`.
pub open spec fn is_digit(c: char) -> bool {
    '0' as u32 <= c as u32 && c as u32 <= '9' as u32
}

/// A word character: a letter, a digit or an underscore. Word characters
/// extend identifier and keyword matches across a would-be boundary.
pub open spec fn is_word_char(c: char) -> bool {
    is_letter(c) || is_digit(c) || c == '_'
}

pub fn letter(c: char) -> (r: bool)
    ensures
        r == is_letter(c),
{
    let u = c as u32;
    ('a' as u32 <= u && u <= 'z' as u32) || ('A' as u32 <= u && u <= 'Z' as u32)
}

pub fn digit(c: char) -> (r: bool)
    ensures
        r == is_digit(c),
{
    let u = c as u32;
    '0' as u32 <= u && u <= '9' as u32
}

pub fn word_char(c: char) -> (r: bool)
    ensures
        r == is_word_char(c),
{
    letter(c) || digit(c) || c == '_'
}

/// The length of the maximal prefix of `s` made of ASCII letters.
pub open spec fn letter_run_len(s: Seq<char>) -> nat
    decreases s.len(),
{
    if s.len() > 0 && is_letter(s[0]) {
        (1 + letter_run_len(s.skip(1))) as nat
    } else {
        0
    }
}

/// The length of the maximal prefix of `s` made of ASCII digits.
pub open spec fn digit_run_len(s: Seq<char>) -> nat
    decreases s.len(),
{
    if s.len() > 0 && is_digit(s[0]) {
        (1 + digit_run_len(s.skip(1))) as nat
    } else {
        0
    }
}

pub proof fn lemma_letter_run_len(s: Seq<char>)
    ensures
        letter_run_len(s) <= s.len(),
        forall|i: int| 0 <= i < letter_run_len(s) ==> is_letter(#[trigger] s[i]),
        letter_run_len(s) < s.len() ==> !is_letter(s[letter_run_len(s) as int]),
    decreases s.len(),
{
    if s.len() > 0 && is_letter(s[0]) {
        lemma_letter_run_len(s.skip(1));
        assert forall|i: int| 0 <= i < letter_run_len(s) implies is_letter(#[trigger] s[i]) by {
            if i > 0 {
                assert(s.skip(1)[i - 1] == s[i]);
            }
        }
        if letter_run_len(s) < s.len() {
            assert(s.skip(1)[letter_run_len(s) - 1] == s[letter_run_len(s) as int]);
        }
    }
}

pub proof fn lemma_digit_run_len(s: Seq<char>)
    ensures
        digit_run_len(s) <= s.len(),
        forall|i: int| 0 <= i < digit_run_len(s) ==> is_digit(#[trigger] s[i]),
        digit_run_len(s) < s.len() ==> !is_digit(s[digit_run_len(s) as int]),
    decreases s.len(),
{
    if s.len() > 0 && is_digit(s[0]) {
        lemma_digit_run_len(s.skip(1));
        assert forall|i: int| 0 <= i < digit_run_len(s) implies is_digit(#[trigger] s[i]) by {
            if i > 0 {
                assert(s.skip(1)[i - 1] == s[i]);
            }
        }
        if digit_run_len(s) < s.len() {
            assert(s.skip(1)[digit_run_len(s) - 1] == s[digit_run_len(s) as int]);
        }
    }
}

/// A count of leading letters that cannot be extended and is preceded only by
/// letters is exactly the maximal letter run.
pub proof fn lemma_letter_run_len_is(s: Seq<char>, n: int)
    requires
        0 <= n <= s.len(),
        forall|i: int| 0 <= i < n ==> is_letter(#[trigger] s[i]),
        n < s.len() ==> !is_letter(s[n]),
    ensures
        letter_run_len(s) == n,
    decreases n,
{
    if n == 0 {
    } else {
        lemma_letter_run_len_is(s.skip(1), n - 1);
    }
}

pub proof fn lemma_digit_run_len_is(s: Seq<char>, n: int)
    requires
        0 <= n <= s.len(),
        forall|i: int| 0 <= i < n ==> is_digit(#[trigger] s[i]),
        n < s.len() ==> !is_digit(s[n]),
    ensures
        digit_run_len(s) == n,
    decreases n,
{
    if n == 0 {
    } else {
        lemma_digit_run_len_is(s.skip(1), n - 1);
    }
}

/// Whether position `n` of `s` is a word boundary: the end of the text, or a
/// character that is not a word character.
pub open spec fn word_boundary(s: Seq<char>, n: int) -> bool {
    n == s.len() || !is_word_char(s[n])
}

/// The match of a keyword `w` against a prefix of `s`: the characters of `w`
/// followed by a word boundary.
pub open spec fn keyword_match(w: Seq<char>, s: Seq<char>) -> Option<nat> {
    if w.len() <= s.len() && s.take(w.len() as int) == w && word_boundary(s, w.len() as int) {
        Some(w.len())
    } else {
        None
    }
}

/// The length of the prefix of `s` that `kind`'s pattern matches, or `None`
/// when the pattern does not match at the start of `s`.
pub open spec fn kind_match_len(kind: TokenKind, s: Seq<char>) -> Option<nat> {
    match kind {
        TokenKind::Def => keyword_match("def"@, s),
        TokenKind::End => keyword_match("end"@, s),
        TokenKind::Identifier => if letter_run_len(s) > 0 && word_boundary(
            s,
            letter_run_len(s) as int,
        ) {
            Some(letter_run_len(s))
        } else {
            None
        },
        TokenKind::Integer => if digit_run_len(s) > 0 && word_boundary(
            s,
            digit_run_len(s) as int,
        ) {
            Some(digit_run_len(s))
        } else {
            None
        },
        TokenKind::Oparam => if s.len() > 0 && s[0] == '(' {
            Some(1)
        } else {
            None
        },
        TokenKind::Cparam => if s.len() > 0 && s[0] == ')' {
            Some(1)
        } else {
            None
        },
        TokenKind::Comma => if s.len() > 0 && s[0] == ',' {
            Some(1)
        } else {
            None
        },
    }
}

/// Every successful match takes at least one and at most all of the
/// remaining characters.
pub proof fn lemma_kind_match_len_bounds(kind: TokenKind, s: Seq<char>)
    ensures
        kind_match_len(kind, s) matches Some(n) ==> 1 <= n <= s.len(),
{
    reveal_strlit("def");
    reveal_strlit("end");
    match kind {
        TokenKind::Identifier => {
            lemma_letter_run_len(s);
        },
        TokenKind::Integer => {
            lemma_digit_run_len(s);
        },
        _ => {},
    }
}

/// The name of a token kind, as diagnostics spell it.
pub open spec fn kind_name(kind: TokenKind) -> Seq<char> {
    match kind {
        TokenKind::Def => "def"@,
        TokenKind::End => "end"@,
        TokenKind::Identifier => "identifier"@,
        TokenKind::Integer => "integer"@,
        TokenKind::Oparam => "oparam"@,
        TokenKind::Cparam => "cparam"@,
        TokenKind::Comma => "comma"@,
    }
}

impl TokenKind {
    /// The kind's name.
    pub fn name(&self) -> (r: String)
        ensures
            r@ == kind_name(*self),
    {
        match self {
            TokenKind::Def => "def".to_owned(),
            TokenKind::End => "end".to_owned(),
            TokenKind::Identifier => "identifier".to_owned(),
            TokenKind::Integer => "integer".to_owned(),
            TokenKind::Oparam => "oparam".to_owned(),
            TokenKind::Cparam => "cparam".to_owned(),
            TokenKind::Comma => "comma".to_owned(),
        }
    }
}

/// A token is well formed when its text is a match of its kind's pattern.
/// The tokenizer only produces well-formed tokens.
pub open spec fn wf_token(t: TokenV) -> bool {
    match t.kind {
        TokenKind::Def => t.text == "def"@,
        TokenKind::End => t.text == "end"@,
        TokenKind::Identifier => t.text.len() > 0 && forall|i: int|
            0 <= i < t.text.len() ==> is_letter(#[trigger] t.text[i]),
        TokenKind::Integer => t.text.len() > 0 && forall|i: int|
            0 <= i < t.text.len() ==> is_digit(#[trigger] t.text[i]),
        TokenKind::Oparam => t.text == "("@,
        TokenKind::Cparam => t.text == ")"@,
        TokenKind::Comma => t.text == ","@,
    }
}

/// All tokens of a sequence are well formed.
pub open spec fn wf_tokens(ts: Seq<TokenV>) -> bool {
    forall|i: int| 0 <= i < ts.len() ==> wf_token(#[trigger] ts[i])
}

} // verus!
