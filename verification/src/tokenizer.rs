use vstd::prelude::*;

use crate::token::{
    digit, digit_run_len, is_digit, is_letter, keyword_match, kind_match_len, letter,
    lemma_digit_run_len, lemma_digit_run_len_is, lemma_kind_match_len_bounds, lemma_letter_run_len,
    lemma_letter_run_len_is, letter_run_len, views_of, wf_token, wf_tokens, word_boundary,
    word_char, Token, TokenKind, TokenV,
};
use vstd::string::StrSliceExecFns;

verus! {

/// The first kind of `kinds`, in order, whose pattern matches a prefix of
/// `s`, together with the match length.
pub open spec fn first_match(kinds: Seq<TokenKind>, s: Seq<char>) -> Option<(TokenKind, nat)>
    decreases kinds.len(),
{
    if kinds.len() == 0 {
        None
    } else {
        match kind_match_len(kinds[0], s) {
            Some(n) => Some((kinds[0], n)),
            None => first_match(kinds.skip(1), s),
        }
    }
}

pub proof fn lemma_first_match_bounds(kinds: Seq<TokenKind>, s: Seq<char>)
    ensures
        first_match(kinds, s) matches Some((k, n)) ==> 1 <= n <= s.len(),
    decreases kinds.len(),
{
    if kinds.len() > 0 {
        lemma_kind_match_len_bounds(kinds[0], s);
        lemma_first_match_bounds(kinds.skip(1), s);
    }
}

/// The token sequence of `s` under the priority-ordered registry `kinds`:
/// repeatedly, the first matching kind yields a token carrying the matched
/// prefix, and a position where no kind matches is skipped without a token.
pub open spec fn spec_tokenize(kinds: Seq<TokenKind>, s: Seq<char>) -> Seq<TokenV>
    decreases s.len(),
    via spec_tokenize_decreases
{
    if s.len() == 0 {
        Seq::empty()
    } else {
        match first_match(kinds, s) {
            Some((k, n)) => seq![TokenV { kind: k, text: s.take(n as int) }] + spec_tokenize(
                kinds,
                s.skip(n as int),
            ),
            None => spec_tokenize(kinds, s.skip(1)),
        }
    }
}

#[via_fn]
proof fn spec_tokenize_decreases(kinds: Seq<TokenKind>, s: Seq<char>) {
    lemma_first_match_bounds(kinds, s);
}

pub proof fn lemma_first_match_kind(kinds: Seq<TokenKind>, s: Seq<char>)
    ensures
        first_match(kinds, s) matches Some((k, n)) ==> kind_match_len(k, s) == Some(n),
    decreases kinds.len(),
{
    if kinds.len() > 0 {
        lemma_first_match_kind(kinds.skip(1), s);
    }
}

/// Every token that tokenization produces is well formed: its text is a
/// match of its kind's pattern. A character that matches no pattern is
/// dropped and appears in no token.
pub proof fn lemma_tokenize_wf(kinds: Seq<TokenKind>, s: Seq<char>)
    ensures
        wf_tokens(spec_tokenize(kinds, s)),
    decreases s.len(),
{
    if s.len() > 0 {
        lemma_first_match_bounds(kinds, s);
        lemma_first_match_kind(kinds, s);
        match first_match(kinds, s) {
            Some((k, n)) => {
                lemma_tokenize_wf(kinds, s.skip(n as int));
                let t = TokenV { kind: k, text: s.take(n as int) };
                assert(wf_token(t)) by {
                    match k {
                        TokenKind::Identifier => {
                            lemma_letter_run_len(s);
                            assert forall|i: int| 0 <= i < t.text.len() implies is_letter(
                                #[trigger] t.text[i],
                            ) by {
                                assert(t.text[i] == s[i]);
                            }
                        },
                        TokenKind::Integer => {
                            lemma_digit_run_len(s);
                            assert forall|i: int| 0 <= i < t.text.len() implies is_digit(
                                #[trigger] t.text[i],
                            ) by {
                                assert(t.text[i] == s[i]);
                            }
                        },
                        TokenKind::Oparam => {
                            reveal_strlit("(");
                            assert(t.text =~= "("@);
                        },
                        TokenKind::Cparam => {
                            reveal_strlit(")");
                            assert(t.text =~= ")"@);
                        },
                        TokenKind::Comma => {
                            reveal_strlit(",");
                            assert(t.text =~= ","@);
                        },
                        _ => {},
                    }
                }
                let out = spec_tokenize(kinds, s);
                let tail = spec_tokenize(kinds, s.skip(n as int));
                assert forall|i: int| 0 <= i < out.len() implies wf_token(#[trigger] out[i]) by {
                    if i > 0 {
                        assert(out[i] == tail[i - 1]);
                    }
                }
            },
            None => {
                lemma_tokenize_wf(kinds, s.skip(1));
            },
        }
    }
}

/// The end of the maximal run of letters that starts at `pos`.
fn scan_letters(code: &str, len: usize, pos: usize) -> (e: usize)
    requires
        pos <= len,
        code@.len() == len as nat,
    ensures
        pos <= e <= len,
        letter_run_len(code@.skip(pos as int)) == e - pos,
{
    let mut e = pos;
    while e < len && letter(code.get_char(e))
        invariant
            pos <= e <= len,
            code@.len() == len as nat,
            forall|i: int| pos <= i < e ==> is_letter(#[trigger] code@[i]),
        decreases len - e,
    {
        e = e + 1;
    }
    proof {
        let s = code@.skip(pos as int);
        assert forall|i: int| 0 <= i < e - pos implies is_letter(#[trigger] s[i]) by {
            assert(s[i] == code@[pos + i]);
        }
        if (e as int) - (pos as int) < s.len() {
            assert(s[e - pos] == code@[e as int]);
        }
        lemma_letter_run_len_is(s, e - pos);
    }
    e
}

/// The end of the maximal run of digits that starts at `pos`.
fn scan_digits(code: &str, len: usize, pos: usize) -> (e: usize)
    requires
        pos <= len,
        code@.len() == len as nat,
    ensures
        pos <= e <= len,
        digit_run_len(code@.skip(pos as int)) == e - pos,
{
    let mut e = pos;
    while e < len && digit(code.get_char(e))
        invariant
            pos <= e <= len,
            code@.len() == len as nat,
            forall|i: int| pos <= i < e ==> is_digit(#[trigger] code@[i]),
        decreases len - e,
    {
        e = e + 1;
    }
    proof {
        let s = code@.skip(pos as int);
        assert forall|i: int| 0 <= i < e - pos implies is_digit(#[trigger] s[i]) by {
            assert(s[i] == code@[pos + i]);
        }
        if (e as int) - (pos as int) < s.len() {
            assert(s[e - pos] == code@[e as int]);
        }
        lemma_digit_run_len_is(s, e - pos);
    }
    e
}

/// Whether position `n` is a word boundary of the text from `pos` on.
fn boundary_at(code: &str, len: usize, pos: usize, n: usize) -> (r: bool)
    requires
        pos <= len,
        code@.len() == len as nat,
        pos <= n <= len,
    ensures
        r == word_boundary(code@.skip(pos as int), n - pos),
{
    proof {
        if n < len {
            assert(code@.skip(pos as int)[n - pos] == code@[n as int]);
        }
    }
    n == len || !word_char(code.get_char(n))
}

/// The match of the three-character keyword `c0 c1 c2` at `pos`.
fn keyword3_match_at(code: &str, len: usize, pos: usize, c0: char, c1: char, c2: char) -> (r:
    Option<usize>)
    requires
        pos <= len,
        code@.len() == len as nat,
    ensures
        match r {
            Some(m) => keyword_match(seq![c0, c1, c2], code@.skip(pos as int)) == Some(
                m as nat,
            ) && pos + m <= len,
            None => keyword_match(seq![c0, c1, c2], code@.skip(pos as int)) is None,
        },
{
    let ghost s = code@.skip(pos as int);
    proof {
        if len - pos >= 3 {
            assert(s[0] == code@[pos as int]);
            assert(s[1] == code@[pos + 1]);
            assert(s[2] == code@[pos + 2]);
        }
    }
    if len - pos >= 3 && code.get_char(pos) == c0 && code.get_char(pos + 1) == c1 && code.get_char(
        pos + 2,
    ) == c2 && boundary_at(code, len, pos, pos + 3) {
        proof {
            assert(s.take(3) =~= seq![c0, c1, c2]);
        }
        Some(3)
    } else {
        proof {
            if len - pos >= 3 && s.take(3) == seq![c0, c1, c2] {
                assert(s[0] == c0 && s[1] == c1 && s[2] == c2);
            }
        }
        None
    }
}

/// The length of the prefix of the text from `pos` on that `kind`'s pattern
/// matches.
fn kind_match_at(kind: TokenKind, code: &str, len: usize, pos: usize) -> (r: Option<usize>)
    requires
        pos <= len,
        code@.len() == len as nat,
    ensures
        match r {
            Some(m) => kind_match_len(kind, code@.skip(pos as int)) == Some(m as nat) && 1 <= m
                && pos + m <= len,
            None => kind_match_len(kind, code@.skip(pos as int)) is None,
        },
{
    let ghost s = code@.skip(pos as int);
    proof {
        if pos < len {
            assert(s[0] == code@[pos as int]);
        }
    }
    match kind {
        TokenKind::Def => {
            proof {
                reveal_strlit("def");
                assert("def"@ =~= seq!['d', 'e', 'f']);
            }
            keyword3_match_at(code, len, pos, 'd', 'e', 'f')
        },
        TokenKind::End => {
            proof {
                reveal_strlit("end");
                assert("end"@ =~= seq!['e', 'n', 'd']);
            }
            keyword3_match_at(code, len, pos, 'e', 'n', 'd')
        },
        TokenKind::Identifier => {
            let e = scan_letters(code, len, pos);
            if e > pos && boundary_at(code, len, pos, e) {
                Some(e - pos)
            } else {
                None
            }
        },
        TokenKind::Integer => {
            let e = scan_digits(code, len, pos);
            if e > pos && boundary_at(code, len, pos, e) {
                Some(e - pos)
            } else {
                None
            }
        },
        TokenKind::Oparam => {
            if pos < len && code.get_char(pos) == '(' {
                Some(1)
            } else {
                None
            }
        },
        TokenKind::Cparam => {
            if pos < len && code.get_char(pos) == ')' {
                Some(1)
            } else {
                None
            }
        },
        TokenKind::Comma => {
            if pos < len && code.get_char(pos) == ',' {
                Some(1)
            } else {
                None
            }
        },
    }
}

/// The first kind of the registry that matches at `pos`, with its match
/// length.
fn first_match_at(kinds: &Vec<TokenKind>, code: &str, len: usize, pos: usize) -> (r: Option<
    (TokenKind, usize),
>)
    requires
        pos <= len,
        code@.len() == len as nat,
    ensures
        match r {
            Some((k, m)) => first_match(kinds@, code@.skip(pos as int)) == Some((k, m as nat))
                && 1 <= m && pos + m <= len,
            None => first_match(kinds@, code@.skip(pos as int)) is None,
        },
{
    let ghost s = code@.skip(pos as int);
    proof {
        assert(kinds@.skip(0) =~= kinds@);
    }
    let mut i: usize = 0;
    while i < kinds.len()
        invariant
            i <= kinds@.len(),
            pos <= len,
            code@.len() == len as nat,
            s == code@.skip(pos as int),
            first_match(kinds@, s) == first_match(kinds@.skip(i as int), s),
        decreases kinds@.len() - i,
    {
        let r = kind_match_at(kinds[i], code, len, pos);
        proof {
            assert(kinds@.skip(i as int)[0] == kinds@[i as int]);
            assert(kinds@.skip(i as int).skip(1) =~= kinds@.skip(i + 1));
        }
        match r {
            Some(m) => {
                return Some((kinds[i], m));
            },
            None => {},
        }
        i = i + 1;
    }
    proof {
        assert(kinds@.skip(i as int).len() == 0);
    }
    None
}

/// Turns `code` into tokens, appending them to `tokens`: at each position the
/// first kind of `token_kinds` whose pattern matches wins and its matched
/// text is taken; where none matches, one character is skipped silently.
pub fn tokenize(code: &str, tokens: &mut Vec<Token>, token_kinds: &Vec<TokenKind>)
    ensures
        views_of(final(tokens)@) == views_of(old(tokens)@) + spec_tokenize(token_kinds@, code@),
{
    let len = code.unicode_len();
    let mut pos: usize = 0;
    proof {
        assert(code@.skip(0) =~= code@);
    }
    while pos < len
        invariant
            pos <= len,
            code@.len() == len as nat,
            views_of(tokens@) + spec_tokenize(token_kinds@, code@.skip(pos as int)) == views_of(
                old(tokens)@,
            ) + spec_tokenize(token_kinds@, code@),
        decreases len - pos,
    {
        let ghost s = code@.skip(pos as int);
        match first_match_at(token_kinds, code, len, pos) {
            Some((k, m)) => {
                let text = code.substring_char(pos, pos + m).to_owned();
                proof {
                    assert(text@ =~= s.take(m as int));
                }
                let t = Token::new(k, text);
                let ghost before = tokens@;
                tokens.push(t);
                proof {
                    assert(s.skip(m as int) =~= code@.skip(pos + m));
                    assert(views_of(tokens@) =~= views_of(before).push(t@));
                    assert(views_of(before).push(t@) + spec_tokenize(
                        token_kinds@,
                        code@.skip(pos + m),
                    ) =~= views_of(before) + (seq![t@] + spec_tokenize(
                        token_kinds@,
                        code@.skip(pos + m),
                    )));
                }
                pos = pos + m;
            },
            None => {
                proof {
                    assert(s.skip(1) =~= code@.skip(pos + 1));
                }
                pos = pos + 1;
            },
        }
    }
    proof {
        assert(code@.skip(pos as int) =~= Seq::<char>::empty());
        assert(views_of(tokens@) + spec_tokenize(token_kinds@, code@.skip(pos as int)) =~= views_of(
            tokens@,
        ));
    }
}

} // verus!
