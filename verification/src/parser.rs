//! Recursive-descent expansion of the nested-braces literal notation.
//!
//! The grammar over tokens is
//!
//! ```text
//! node  := label | label "=>" "{" body "}"
//! body  := "" | entry ( "," entry )* [","]
//! entry := node
//! ```
//!
//! with a trailing comma permitted after the last entry of any body and an
//! empty body standing for "no children". `spec_parse_entry` and
//! `spec_parse_body` define the meaning of a token sequence; the executable
//! parser computes exactly that meaning, carrying a "done" accumulator of
//! already-built siblings through each body and expanding every nested body
//! to a complete children sequence before its parent node is built. A token
//! sequence the grammar does not generate is rejected with
//! [`MalformedLiteral`]; no tree value is ever produced for it.

use vstd::prelude::*;

use crate::token::{Token, TokenView};
use crate::tree::{lemma_trees_view_push, trees_view, StrTree, TreeView};

verus! {

/// The input literal does not match the grammar.
///
/// `position` points at the place where matching failed: the index of the
/// offending token, or one past the last token when input ended too early.
#[derive(Debug, PartialEq, Eq)]
pub struct MalformedLiteral {
    pub position: usize,
}

/// Meaning of one entry starting at token `i`: the tree it denotes and the
/// index one past its last token, or `None` when no entry starts there.
///
/// An entry is a label alone (a leaf), or a label followed by `=>`, `{`,
/// a body and `}`. A label followed by `=>` without `{` matches nothing.
pub open spec fn spec_parse_entry(toks: Seq<TokenView>, i: int) -> Option<(TreeView, int)>
    decreases toks.len() - i, 0int,
{
    if !(0 <= i < toks.len()) {
        None
    } else {
        match toks[i] {
            TokenView::Label(l) => {
                if i + 1 < toks.len() && toks[i + 1] is Arrow {
                    if i + 2 < toks.len() && toks[i + 2] is LBrace {
                        match spec_parse_body(toks, i + 3) {
                            None => None,
                            Some((cs, j)) => {
                                if j < toks.len() && toks[j] is RBrace {
                                    Some((TreeView { label: l, children: cs }, j + 1))
                                } else {
                                    None
                                }
                            },
                        }
                    } else {
                        None
                    }
                } else {
                    Some((TreeView::leaf(l), i + 1))
                }
            },
            _ => None,
        }
    }
}

/// Meaning of a body starting at token `i`: the denoted children, in the
/// order their entries stand in the body, and the index of the body's end
/// (the position of the closing brace, which is not consumed).
///
/// A body ends just before a closing brace; entries are separated by commas
/// and a comma after the last entry is permitted. An entry always consumes
/// at least one token, so the guard on the returned index never fails; it
/// only keeps this function total.
pub open spec fn spec_parse_body(toks: Seq<TokenView>, i: int) -> Option<(Seq<TreeView>, int)>
    decreases toks.len() - i, 1int,
{
    if !(0 <= i <= toks.len()) {
        None
    } else if i < toks.len() && toks[i] is RBrace {
        Some((Seq::empty(), i))
    } else {
        match spec_parse_entry(toks, i) {
            None => None,
            Some((t, j)) => {
                if i < j <= toks.len() {
                    if j < toks.len() && toks[j] is Comma {
                        match spec_parse_body(toks, j + 1) {
                            None => None,
                            Some((cs, k)) => Some((seq![t] + cs, k)),
                        }
                    } else {
                        Some((seq![t], j))
                    }
                } else {
                    None
                }
            },
        }
    }
}

/// A parsed entry always consumes at least one token and never runs past
/// the end of the sequence — so the totality guard in `spec_parse_body`
/// never rejects a parsed entry.
pub proof fn lemma_parse_entry_bounds(toks: Seq<TokenView>, i: int)
    ensures
        spec_parse_entry(toks, i) matches Some((t, j)) ==> i < j <= toks.len(),
    decreases toks.len() - i, 0int,
{
    if 0 <= i < toks.len() {
        match toks[i] {
            TokenView::Label(l) => {
                if i + 1 < toks.len() && toks[i + 1] is Arrow {
                    if i + 2 < toks.len() && toks[i + 2] is LBrace {
                        lemma_parse_body_bounds(toks, i + 3);
                    }
                }
            },
            _ => {},
        }
    }
}

/// A parsed body ends where it started or later, and never past the end.
pub proof fn lemma_parse_body_bounds(toks: Seq<TokenView>, i: int)
    ensures
        spec_parse_body(toks, i) matches Some((cs, j)) ==> i <= j <= toks.len(),
    decreases toks.len() - i, 1int,
{
    if 0 <= i <= toks.len() {
        if i < toks.len() && toks[i] is RBrace {
        } else {
            lemma_parse_entry_bounds(toks, i);
            match spec_parse_entry(toks, i) {
                None => {},
                Some((t, j)) => {
                    if i < j <= toks.len() {
                        if j < toks.len() && toks[j] is Comma {
                            lemma_parse_body_bounds(toks, j + 1);
                        }
                    }
                },
            }
        }
    }
}

/// Meaning of a whole token sequence: one entry covering every token.
pub open spec fn spec_parse_tree(toks: Seq<TokenView>) -> Option<TreeView> {
    match spec_parse_entry(toks, 0) {
        None => None,
        Some((t, j)) => if j == toks.len() {
            Some(t)
        } else {
            None
        },
    }
}

/// Parses one entry starting at token `i`, returning the tree and the index
/// one past it.
fn parse_entry(toks: &Vec<Token>, i: usize) -> (r: Result<(StrTree, usize), MalformedLiteral>)
    ensures
        match r {
            Ok((t, j)) => {
                &&& spec_parse_entry(toks.deep_view(), i as int) == Some((t@, j as int))
                &&& i < j <= toks.len()
            },
            Err(_) => spec_parse_entry(toks.deep_view(), i as int) is None,
        },
    decreases toks.len() - i, 0int,
{
    if i >= toks.len() {
        return Err(MalformedLiteral { position: i });
    }
    match &toks[i] {
        Token::Label(s) => {
            let lab: String = s.clone();
            if i + 1 < toks.len() && toks[i + 1].is_arrow() {
                if i + 2 < toks.len() && toks[i + 2].is_lbrace() {
                    match parse_body(toks, i + 3) {
                        Err(e) => Err(e),
                        Ok((cs, j)) => {
                            if j < toks.len() && toks[j].is_rbrace() {
                                let t = StrTree { elmt: lab, children: cs };
                                Ok((t, j + 1))
                            } else {
                                Err(MalformedLiteral { position: j })
                            }
                        },
                    }
                } else {
                    Err(MalformedLiteral { position: i + 2 })
                }
            } else {
                let t = StrTree { elmt: lab, children: Vec::new() };
                proof {
                    assert(t@ =~= TreeView::leaf(t.elmt@));
                }
                Ok((t, i + 1))
            }
        },
        _ => Err(MalformedLiteral { position: i }),
    }
}

/// Parses a body starting at token `start`, accumulating the already-built
/// sibling nodes in `done` until the pending tokens begin with the closing
/// brace (or, without a separator, until just after the last entry).
fn parse_body(toks: &Vec<Token>, start: usize) -> (r: Result<
    (Vec<StrTree>, usize),
    MalformedLiteral,
>)
    requires
        start <= toks.len(),
    ensures
        match r {
            Ok((cs, j)) => {
                &&& spec_parse_body(toks.deep_view(), start as int) == Some(
                    (trees_view(cs@), j as int),
                )
                &&& start <= j <= toks.len()
            },
            Err(_) => spec_parse_body(toks.deep_view(), start as int) is None,
        },
    decreases toks.len() - start, 1int,
{
    let mut done: Vec<StrTree> = Vec::new();
    let mut pos: usize = start;
    loop
        invariant
            start <= pos <= toks.len(),
            (match spec_parse_body(toks.deep_view(), pos as int) {
                None => spec_parse_body(toks.deep_view(), start as int) is None,
                Some((cs, k)) => spec_parse_body(toks.deep_view(), start as int) == Some(
                    (trees_view(done@) + cs, k),
                ),
            }),
        decreases toks.len() - pos,
    {
        if pos < toks.len() && toks[pos].is_rbrace() {
            proof {
                assert(trees_view(done@) + Seq::<TreeView>::empty() =~= trees_view(done@));
            }
            return Ok((done, pos));
        }
        match parse_entry(toks, pos) {
            Err(e) => {
                return Err(e);
            },
            Ok((t, j)) => {
                let ghost done_before = done@;
                let ghost tv = t@;
                done.push(t);
                proof {
                    lemma_trees_view_push(done_before, t);
                    assert(trees_view(done@) =~= trees_view(done_before) + seq![tv]);
                }
                if j < toks.len() && toks[j].is_comma() {
                    proof {
                        match spec_parse_body(toks.deep_view(), j + 1 as int) {
                            None => {},
                            Some((cs, k)) => {
                                assert(trees_view(done_before) + (seq![tv] + cs) =~= trees_view(
                                    done@,
                                ) + cs);
                            },
                        }
                    }
                    pos = j + 1;
                } else {
                    return Ok((done, j));
                }
            },
        }
    }
}

/// Expands a whole token sequence into a tree: one entry that covers every
/// token. Returns `Ok` exactly when the grammar generates the sequence, and
/// `MalformedLiteral` otherwise; a malformed sequence never yields a tree.
pub fn parse_tokens(toks: &Vec<Token>) -> (r: Result<StrTree, MalformedLiteral>)
    ensures
        match r {
            Ok(t) => spec_parse_tree(toks.deep_view()) == Some(t@),
            Err(_) => spec_parse_tree(toks.deep_view()) is None,
        },
{
    match parse_entry(toks, 0) {
        Err(e) => Err(e),
        Ok((t, j)) => {
            if j == toks.len() {
                Ok(t)
            } else {
                Err(MalformedLiteral { position: j })
            }
        },
    }
}

/// Meaning of a literal string: its tokens, read by the grammar.
pub open spec fn spec_str_tree(s: Seq<char>) -> Option<TreeView> {
    match crate::lexer::spec_lex(s) {
        None => None,
        Some(toks) => spec_parse_tree(toks),
    }
}

/// Expands the nested-braces literal `input` into a tree.
///
/// Returns `Ok` exactly when the text is a well-formed literal — a label,
/// or a label with `=> { ... }` bodies nested to any depth, commas between
/// entries and optionally after the last one — and `MalformedLiteral`
/// otherwise. Malformed input never yields a tree value.
pub fn str_tree(input: &str) -> (r: Result<StrTree, MalformedLiteral>)
    ensures
        match r {
            Ok(t) => spec_str_tree(input@) == Some(t@),
            Err(_) => spec_str_tree(input@) is None,
        },
{
    match crate::lexer::lex(input) {
        Err(e) => Err(e),
        Ok(toks) => parse_tokens(&toks),
    }
}

} // verus!
