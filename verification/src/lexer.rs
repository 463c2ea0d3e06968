//! Cutting a literal string into tokens.
//!
//! The surface form of the notation is text such as `"a" => { "b", "c" }`:
//! labels stand between double quotes (any characters but a quote), the
//! arrow is `=>`, bodies are delimited by braces and separated by commas,
//! and whitespace between tokens is ignored. `spec_lex` gives the meaning
//! of a character sequence as a token sequence, or `None` where some
//! character starts no token or a label never closes; `lex` computes it.

use vstd::prelude::*;

use crate::parser::MalformedLiteral;
use crate::token::{Token, TokenView};

verus! {

/// Whitespace permitted between tokens.
pub open spec fn is_space(c: char) -> bool {
    c == ' ' || c == '\t' || c == '\n' || c == '\r'
}

/// The label characters up to the first closing quote of `s`, and what
/// follows that quote; `None` when no quote closes the label.
pub open spec fn spec_take_label(s: Seq<char>) -> Option<(Seq<char>, Seq<char>)>
    decreases s.len(),
{
    if s.len() == 0 {
        None
    } else if s[0] == '"' {
        Some((Seq::empty(), s.skip(1)))
    } else {
        match spec_take_label(s.skip(1)) {
            None => None,
            Some((lab, rest)) => Some((seq![s[0]] + lab, rest)),
        }
    }
}

/// Prepends a token to a lexing result; `None` stays `None`.
pub open spec fn lex_cons(t: TokenView, rest: Option<Seq<TokenView>>) -> Option<Seq<TokenView>> {
    match rest {
        None => None,
        Some(ts) => Some(seq![t] + ts),
    }
}

/// Meaning of a character sequence as a token sequence, front to back;
/// `None` where a character starts no token, `=` is not followed by `>`,
/// or a label's closing quote is missing.
///
/// The guard on the remainder's length only keeps the recursion visibly
/// bounded: what follows a closing quote is always shorter than the input.
pub open spec fn spec_lex(s: Seq<char>) -> Option<Seq<TokenView>>
    decreases s.len(),
{
    if s.len() == 0 {
        Some(Seq::empty())
    } else if is_space(s[0]) {
        spec_lex(s.skip(1))
    } else if s[0] == '{' {
        lex_cons(TokenView::LBrace, spec_lex(s.skip(1)))
    } else if s[0] == '}' {
        lex_cons(TokenView::RBrace, spec_lex(s.skip(1)))
    } else if s[0] == ',' {
        lex_cons(TokenView::Comma, spec_lex(s.skip(1)))
    } else if s[0] == '=' {
        if s.len() >= 2 && s[1] == '>' {
            lex_cons(TokenView::Arrow, spec_lex(s.skip(2)))
        } else {
            None
        }
    } else if s[0] == '"' {
        match spec_take_label(s.skip(1)) {
            None => None,
            Some((lab, rest)) => {
                if rest.len() < s.len() {
                    lex_cons(TokenView::Label(lab), spec_lex(rest))
                } else {
                    None
                }
            },
        }
    } else {
        None
    }
}

/// Joins already-lexed tokens with the lexing of the rest of the input.
spec fn lex_combine(pre: Seq<TokenView>, rest: Option<Seq<TokenView>>) -> Option<
    Seq<TokenView>,
> {
    match rest {
        None => None,
        Some(ts) => Some(pre + ts),
    }
}

proof fn lemma_combine_cons(pre: Seq<TokenView>, t: TokenView, rest: Option<Seq<TokenView>>)
    ensures
        lex_combine(pre, lex_cons(t, rest)) == lex_combine(pre.push(t), rest),
{
    match rest {
        None => {},
        Some(ts) => {
            assert(pre + (seq![t] + ts) =~= pre.push(t) + ts);
        },
    }
}

proof fn lemma_deep_push(v1: Vec<Token>, v2: Vec<Token>, t: Token)
    requires
        v2@ == v1@.push(t),
    ensures
        v2.deep_view() == v1.deep_view().push(t@),
{
    assert(v2.deep_view() =~= v1.deep_view().push(t@));
}

/// Without a quote anywhere, no label closes.
proof fn lemma_take_label_none(s: Seq<char>)
    requires
        forall|m: int| 0 <= m < s.len() ==> s[m] != '"',
    ensures
        spec_take_label(s) is None,
    decreases s.len(),
{
    if s.len() > 0 {
        lemma_take_label_none(s.skip(1));
    }
}

/// With the first quote at position `n`, the label is everything before it.
pub proof fn lemma_take_label_found(s: Seq<char>, n: int)
    requires
        0 <= n < s.len(),
        s[n] == '"',
        forall|m: int| 0 <= m < n ==> s[m] != '"',
    ensures
        spec_take_label(s) == Some((s.subrange(0, n), s.skip(n + 1))),
    decreases n,
{
    if n == 0 {
        assert(s.subrange(0, 0) =~= Seq::<char>::empty());
    } else {
        lemma_take_label_found(s.skip(1), n - 1);
        assert(seq![s[0]] + s.skip(1).subrange(0, n - 1) =~= s.subrange(0, n));
        assert(s.skip(1).skip(n) =~= s.skip(n + 1));
    }
}

/// Cuts a literal into tokens. Returns `Ok` exactly when every character
/// belongs to a token of the notation (or is whitespace between tokens),
/// and `MalformedLiteral`, pointing at the offending character, otherwise.
pub fn lex(input: &str) -> (r: Result<Vec<Token>, MalformedLiteral>)
    ensures
        match r {
            Ok(toks) => spec_lex(input@) == Some(toks.deep_view()),
            Err(_) => spec_lex(input@) is None,
        },
{
    let n = input.unicode_len();
    let mut toks: Vec<Token> = Vec::new();
    let mut i: usize = 0;
    proof {
        assert(input@.skip(0) =~= input@);
        assert(toks.deep_view() =~= Seq::<TokenView>::empty());
        match spec_lex(input@) {
            None => {},
            Some(ts) => {
                assert(Seq::<TokenView>::empty() + ts =~= ts);
            },
        }
    }
    while i < n
        invariant
            i <= n,
            n == input@.len(),
            spec_lex(input@) == lex_combine(toks.deep_view(), spec_lex(input@.skip(i as int))),
        decreases n - i,
    {
        let ghost pre = toks.deep_view();
        let ghost pending = input@.skip(i as int);
        let c = input.get_char(i);
        if c == ' ' || c == '\t' || c == '\n' || c == '\r' {
            proof {
                assert(pending.skip(1) =~= input@.skip(i + 1));
            }
            i = i + 1;
        } else if c == '{' || c == '}' || c == ',' {
            let tok = if c == '{' {
                Token::LBrace
            } else if c == '}' {
                Token::RBrace
            } else {
                Token::Comma
            };
            let ghost old_toks = toks;
            let ghost gtok = tok;
            toks.push(tok);
            proof {
                assert(pending.skip(1) =~= input@.skip(i + 1));
                lemma_deep_push(old_toks, toks, gtok);
                lemma_combine_cons(pre, gtok@, spec_lex(input@.skip(i + 1)));
            }
            i = i + 1;
        } else if c == '=' {
            if i + 1 < n && input.get_char(i + 1) == '>' {
                let ghost old_toks = toks;
                toks.push(Token::Arrow);
                proof {
                    assert(pending.skip(2) =~= input@.skip(i + 2));
                    lemma_deep_push(old_toks, toks, Token::Arrow);
                    lemma_combine_cons(pre, TokenView::Arrow, spec_lex(input@.skip(i + 2)));
                }
                i = i + 2;
            } else {
                return Err(MalformedLiteral { position: i });
            }
        } else if c == '"' {
            let mut j = i + 1;
            while j < n && input.get_char(j) != '"'
                invariant
                    i + 1 <= j <= n,
                    n == input@.len(),
                    forall|m: int| i + 1 <= m < j ==> input@[m] != '"',
                decreases n - j,
            {
                j = j + 1;
            }
            if j >= n {
                proof {
                    lemma_take_label_none(input@.skip(i + 1));
                    assert(pending.skip(1) =~= input@.skip(i + 1));
                }
                return Err(MalformedLiteral { position: i });
            }
            let lab = input.substring_char(i + 1, j).to_owned();
            let tok = Token::Label(lab);
            let ghost old_toks = toks;
            let ghost gtok = tok;
            toks.push(tok);
            proof {
                assert(pending.skip(1) =~= input@.skip(i + 1));
                lemma_take_label_found(input@.skip(i + 1), j - (i + 1));
                assert(input@.skip(i + 1).subrange(0, j - (i + 1)) =~= input@.subrange(
                    i + 1,
                    j as int,
                ));
                assert(input@.skip(i + 1).skip(j - i) =~= input@.skip(j + 1));
                lemma_deep_push(old_toks, toks, gtok);
                lemma_combine_cons(pre, gtok@, spec_lex(input@.skip(j + 1)));
            }
            i = j + 1;
        } else {
            return Err(MalformedLiteral { position: i });
        }
    }
    proof {
        assert(input@.skip(n as int) =~= Seq::<char>::empty());
        assert(toks.deep_view() + Seq::<TokenView>::empty() =~= toks.deep_view());
    }
    Ok(toks)
}

} // verus!
